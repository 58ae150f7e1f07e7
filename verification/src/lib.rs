//! Arithmetic coding over a fixed-point model of the unit interval.
//!
//! A message is represented by a value inside a sub-interval of [0,1),
//! chosen by narrowing the range according to the cumulative probability
//! of each input byte.  All interval arithmetic is done in fixed point:
//! the unit interval is `SCALE` units wide, and one unit plays the role
//! of the machine epsilon.  Encoding stops a chunk as soon as the
//! current interval can no longer be narrowed, so a message becomes a
//! list of independently decodable chunks.

use vstd::prelude::*;

pub mod freq;
pub mod table;
pub mod interval;
pub mod encode;
pub mod decode;
pub mod laws;

verus! {

/// Fixed-point one: the unit interval [0,1) is `SCALE` units wide.
pub const SCALE: u64 = 0x1000000;

/// One fixed-point unit: the analogue of the machine epsilon.  A chunk
/// ends once the interval width would not exceed `EPS`, and the
/// representative value of a chunk is its lower bound plus `EPS`.
pub const EPS: u64 = 1;

/// Interval-table increments are contracted by `(SCALE - 1) / SCALE`,
/// a factor just under one, so the cumulative upper bounds stay
/// strictly below one.
pub const CONTRACT: u64 = 0xffffff;

/// Inputs of at most this many bytes are guaranteed to encode: every
/// chunk then consumes at least one byte.  (`N_MAX == CONTRACT / 3`.)
pub const N_MAX: usize = 5592405;

/// The number of bytes one encoded chunk value occupies, used for the
/// compression ratio.
pub const VALUE_BYTES: usize = 8;

/// One coded chunk: a representative value inside the final interval,
/// in `SCALE` fixed-point units, and the number of bytes it stands for.
#[derive(Clone, Copy, PartialEq, Eq, Structural, Debug)]
pub struct Chunk {
    pub count: usize,
    pub value: u64,
}

/// Encode `data` and decode the result again, against the table built
/// from `data` itself: the verified end-to-end run.  On success the
/// output is the input, byte for byte; on inputs of one to `N_MAX`
/// bytes success is guaranteed.
pub fn proceed(data: &Vec<u8>) -> (r: Result<Vec<u8>, CodecError>)
    ensures
        match r {
            Ok(v) => v@ == data@ && encode::spec_encode(data@) is Ok,
            Err(e) => encode::spec_encode(data@) == Err::<Seq<Chunk>, CodecError>(e),
        },
        1 <= data@.len() <= N_MAX ==> r is Ok,
{
    let n = data.len();
    proof {
        if 1 <= n <= N_MAX {
            laws::lemma_encode_succeeds(data@);
        }
    }
    match encode::encode(data) {
        Err(e) => Err(e),
        Ok(enc) => {
            proof {
                laws::lemma_round_trip(data@);
            }
            match decode::decode(&enc.table, &enc.chunks) {
                Err(e) => Err(e),
                Ok(v) => Ok(v),
            }
        },
    }
}

/// The ways coding can fail.
#[derive(Clone, Copy, PartialEq, Eq, Structural, Debug)]
pub enum CodecError {
    /// No table can be built from an empty input.
    EmptyInput,
    /// A byte met during encoding has no entry in the table: the table
    /// and the input are out of step.
    Lookup,
    /// A working value matched no interval during decoding: the chunk
    /// is corrupt or belongs to another table.
    Decode,
    /// A chunk consumed no bytes from a non-empty input, so encoding
    /// could not advance.
    NoProgress,
}

} // verus!
