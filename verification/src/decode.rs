//! The range decoder: re-narrow the interval exactly as the encoder
//! did, picking at each step the unique table entry whose sub-interval
//! strictly contains the chunk's representative value.  Testing the
//! value against each entry's sub-interval of the current interval is
//! the fixed-point form of rescaling a working value and testing it
//! against the entry's own bounds, and it reproduces the encoder's
//! arithmetic exactly.  A value that no sub-interval strictly
//! contains — outside the unit interval, or on an exact boundary — is
//! rejected rather than decoded wrongly.

use vstd::prelude::*;
use crate::table::{Table, TableEntry};
use crate::interval::{child, child_hi, child_lo};
use crate::{Chunk, CodecError, SCALE};

verus! {

/// The first entry, from `j` on in ascending order, whose
/// sub-interval inside `[lo, hi)` strictly contains `f`.
pub open spec fn find_sym(
    t: Seq<TableEntry>,
    m: int,
    lo: int,
    hi: int,
    f: int,
    j: int,
) -> Option<int>
    decreases t.len() - j,
{
    if j < 0 || j >= t.len() {
        None
    } else {
        let nlo = child_lo(lo, hi, t[j].lo as int, m);
        let nhi = child_hi(lo, hi, t[j].hi as int, m);
        if nlo < f && f < nhi {
            Some(j)
        } else {
            find_sym(t, m, lo, hi, f, j + 1)
        }
    }
}

/// The `n` bytes that the working value `f` decodes to inside
/// `[lo, hi)`: at each step the containing entry's byte is emitted
/// and its sub-interval becomes the current interval.  `None` when at
/// some step no entry strictly contains `f`.
pub open spec fn decode_n(
    t: Seq<TableEntry>,
    m: int,
    lo: int,
    hi: int,
    f: int,
    n: nat,
) -> Option<Seq<u8>>
    decreases n,
{
    if n == 0 {
        Some(Seq::empty())
    } else {
        match find_sym(t, m, lo, hi, f, 0) {
            None => None,
            Some(j) => {
                let nlo = child_lo(lo, hi, t[j].lo as int, m);
                let nhi = child_hi(lo, hi, t[j].hi as int, m);
                match decode_n(t, m, nlo, nhi, f, (n - 1) as nat) {
                    None => None,
                    Some(rest) => Some(Seq::empty().push(t[j].sym) + rest),
                }
            },
        }
    }
}

/// The concatenation, in chunk order, of what every chunk decodes to.
pub open spec fn decode_chunks(t: Seq<TableEntry>, m: int, chunks: Seq<Chunk>) -> Option<Seq<u8>>
    decreases chunks.len(),
{
    if chunks.len() == 0 {
        Some(Seq::empty())
    } else {
        match decode_n(t, m, 0, SCALE as int, chunks[0].value as int, chunks[0].count as nat) {
            None => None,
            Some(first) => match decode_chunks(t, m, chunks.drop_first()) {
                None => None,
                Some(rest) => Some(first + rest),
            },
        }
    }
}

/// One decoding step: scan the table in ascending byte order for the
/// entry whose sub-interval inside `[lo, hi)` strictly contains
/// `value`, returning its byte and that sub-interval.
fn decode_step(t: &Table, lo: u64, hi: u64, value: u64) -> (r: Option<(u8, u64, u64)>)
    requires
        t.wf(),
        lo <= hi,
        hi <= SCALE,
    ensures
        ({
            let found = find_sym(t.entries_seq(), t.m(), lo as int, hi as int, value as int, 0);
            match found {
                None => r is None,
                Some(j) => {
                    let e = t.entries_seq()[j];
                    &&& r matches Some((sym, nlo, nhi))
                    &&& sym == e.sym
                    &&& nlo as int == child_lo(lo as int, hi as int, e.lo as int, t.m())
                    &&& nhi as int == child_hi(lo as int, hi as int, e.hi as int, t.m())
                    &&& lo <= nlo <= nhi <= hi
                },
            }
        }),
{
    let m = t.m_units();
    let n = t.entry_count();
    let mut j: usize = 0;
    while j < n
        invariant
            t.wf(),
            m == t.m(),
            lo <= hi <= SCALE,
            n as int == t.entries_seq().len(),
            j <= n,
            find_sym(t.entries_seq(), t.m(), lo as int, hi as int, value as int, 0) == find_sym(
                t.entries_seq(),
                t.m(),
                lo as int,
                hi as int,
                value as int,
                j as int,
            ),
        decreases n - j,
    {
        let e = t.entry_at(j);
        proof {
            assert(e.lo <= e.hi);
            assert(e.hi as int <= t.total_spec() * (crate::CONTRACT as int));
        }
        let (nlo, nhi) = child(lo, hi, e.lo, e.hi, m);
        if nlo < value && value < nhi {
            return Some((e.sym, nlo, nhi));
        }
        j = j + 1;
    }
    None
}

/// Decode one chunk: starting from the unit interval, recover `count`
/// bytes from the representative `value` by repeated table scan and
/// re-narrowing.  Fails with `Decode` exactly when at some step no
/// entry strictly contains the value.
pub fn uncompress(t: &Table, count: usize, value: u64) -> (r: Result<Vec<u8>, CodecError>)
    requires
        t.wf(),
    ensures
        match decode_n(t.entries_seq(), t.m(), 0, SCALE as int, value as int, count as nat) {
            Some(s) => r matches Ok(v) && v@ == s,
            None => r == Err::<Vec<u8>, CodecError>(CodecError::Decode),
        },
{
    let mut out: Vec<u8> = Vec::new();
    let mut lo: u64 = 0;
    let mut hi: u64 = SCALE;
    let mut k: usize = 0;
    while k < count
        invariant
            t.wf(),
            k <= count,
            lo <= hi <= SCALE,
            ({
                let full = decode_n(
                    t.entries_seq(),
                    t.m(),
                    0,
                    SCALE as int,
                    value as int,
                    count as nat,
                );
                match decode_n(
                    t.entries_seq(),
                    t.m(),
                    lo as int,
                    hi as int,
                    value as int,
                    (count - k) as nat,
                ) {
                    None => full is None,
                    Some(rest) => full == Some(out@ + rest),
                }
            }),
        decreases count - k,
    {
        match decode_step(t, lo, hi, value) {
            None => {
                return Err(CodecError::Decode);
            },
            Some((sym, nlo, nhi)) => {
                let ghost prev = out@;
                out.push(sym);
                proof {
                    match decode_n(
                        t.entries_seq(),
                        t.m(),
                        nlo as int,
                        nhi as int,
                        value as int,
                        (count - k - 1) as nat,
                    ) {
                        None => {},
                        Some(rest2) => {
                            assert(prev + (Seq::empty().push(sym) + rest2) =~= out@ + rest2);
                        },
                    }
                }
                lo = nlo;
                hi = nhi;
                k = k + 1;
            },
        }
    }
    proof {
        assert(out@ + Seq::<u8>::empty() =~= out@);
    }
    Ok(out)
}

/// Decode a whole chunk list against the table it was encoded with,
/// concatenating the chunks' bytes in order.
pub fn decode(t: &Table, chunks: &Vec<Chunk>) -> (r: Result<Vec<u8>, CodecError>)
    requires
        t.wf(),
    ensures
        match decode_chunks(t.entries_seq(), t.m(), chunks@) {
            Some(s) => r matches Ok(v) && v@ == s,
            None => r == Err::<Vec<u8>, CodecError>(CodecError::Decode),
        },
{
    let mut out: Vec<u8> = Vec::new();
    let mut ci: usize = 0;
    proof {
        assert(chunks@.skip(0) =~= chunks@);
    }
    while ci < chunks.len()
        invariant
            t.wf(),
            ci <= chunks@.len(),
            ({
                let full = decode_chunks(t.entries_seq(), t.m(), chunks@);
                match decode_chunks(t.entries_seq(), t.m(), chunks@.skip(ci as int)) {
                    None => full is None,
                    Some(rest) => full == Some(out@ + rest),
                }
            }),
        decreases chunks@.len() - ci,
    {
        let ch = chunks[ci];
        proof {
            assert(chunks@.skip(ci as int)[0] == ch);
            assert(chunks@.skip(ci as int).drop_first() =~= chunks@.skip(ci as int + 1));
        }
        match uncompress(t, ch.count, ch.value) {
            Err(_) => {
                return Err(CodecError::Decode);
            },
            Ok(part) => {
                let ghost prev = out@;
                let mut part = part;
                out.append(&mut part);
                proof {
                    match decode_chunks(t.entries_seq(), t.m(), chunks@.skip(ci as int + 1)) {
                        None => {},
                        Some(rest2) => {
                            let first = decode_n(
                                t.entries_seq(),
                                t.m(),
                                0,
                                SCALE as int,
                                ch.value as int,
                                ch.count as nat,
                            )->Some_0;
                            assert(prev + (first + rest2) =~= out@ + rest2);
                        },
                    }
                }
                ci = ci + 1;
            },
        }
    }
    proof {
        assert(chunks@.skip(chunks@.len() as int).len() == 0);
        assert(out@ + Seq::<u8>::empty() =~= out@);
    }
    Ok(out)
}

} // verus!
