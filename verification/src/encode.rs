//! The range encoder: narrow [0,1) byte by byte until the interval
//! width would no longer exceed one fixed-point unit, emit one
//! representative value per chunk, and schedule chunks until the
//! whole input is consumed.

use vstd::prelude::*;
use crate::table::{Table, TableEntry, lookup_spec, spec_table, lemma_lookup_in_entries};
use crate::interval::{child, child_hi, child_lo};
use crate::{Chunk, CodecError, EPS, SCALE, VALUE_BYTES};

verus! {

/// One run of the range encoder, started at byte `i` with interval
/// `[lo, hi)`, `c` bytes already consumed and `f` the last recorded
/// candidate value.  Each byte narrows the interval to its table
/// sub-interval; when the new width no longer exceeds `EPS` the chunk
/// ends, and the byte that triggered the stop is left for the next
/// chunk.  Otherwise the candidate value `lo + EPS` is recorded and
/// the byte is counted.  A byte absent from the table fails the run.
pub open spec fn chunk_rec(
    t: Seq<TableEntry>,
    m: int,
    s: Seq<u8>,
    i: int,
    lo: int,
    hi: int,
    c: nat,
    f: int,
) -> Result<(nat, int), CodecError>
    decreases s.len() - i,
{
    if i < 0 || i >= s.len() {
        Ok((c, f))
    } else {
        match lookup_spec(t, s[i]) {
            Option::None => Err(CodecError::Lookup),
            Option::Some(e) => {
                let nlo = child_lo(lo, hi, e.lo as int, m);
                let nhi = child_hi(lo, hi, e.hi as int, m);
                if nhi - nlo <= EPS {
                    Ok((c, f))
                } else {
                    chunk_rec(t, m, s, i + 1, nlo, nhi, (c + 1) as nat, nlo + EPS)
                }
            },
        }
    }
}

/// A successful encoder run consumes at least the bytes it was
/// started with and never more than the input holds, and its recorded
/// value stays inside the fixed-point unit interval.
pub proof fn lemma_chunk_count(
    t: Seq<TableEntry>,
    total: int,
    m: int,
    s: Seq<u8>,
    i: int,
    lo: int,
    hi: int,
    c: nat,
    f: int,
)
    requires
        0 <= i <= s.len(),
        chunk_rec(t, m, s, i, lo, hi, c, f) is Ok,
        crate::table::entries_wf(t, total),
        total >= 1,
        m == total * (SCALE as int),
        0 <= lo <= hi <= SCALE,
        0 <= f <= SCALE,
    ensures
        ({
            let (c2, f2) = chunk_rec(t, m, s, i, lo, hi, c, f)->Ok_0;
            c <= c2 && c2 - c <= s.len() - i && 0 <= f2 <= SCALE
        }),
    decreases s.len() - i,
{
    if i < s.len() {
        match lookup_spec(t, s[i]) {
            Option::None => {},
            Option::Some(e) => {
                lemma_lookup_in_entries(t, s[i]);
                let j = choose|j: int|
                    0 <= j < t.len() && (#[trigger] t[j]).sym == s[i] && lookup_spec(t, s[i])
                        == Some(t[j]);
                assert(e.lo <= e.hi);
                assert(e.hi as int <= total * (crate::CONTRACT as int));
                crate::interval::lemma_child_bounds(lo, hi, e.lo as int, e.hi as int, m);
                let nlo = child_lo(lo, hi, e.lo as int, m);
                let nhi = child_hi(lo, hi, e.hi as int, m);
                if nhi - nlo > EPS {
                    lemma_chunk_count(t, total, m, s, i + 1, nlo, nhi, (c + 1) as nat, nlo + EPS);
                }
            },
        }
    }
}

/// The result of one encoder run, in machine words.
pub open spec fn chunk_of(res: Result<(nat, int), CodecError>) -> Result<Chunk, CodecError> {
    match res {
        Ok((c, f)) => Ok(Chunk { count: c as usize, value: f as u64 }),
        Err(e) => Err(e),
    }
}

/// Encode one chunk of `data` starting at `start`: narrow the
/// interval byte by byte until precision is exhausted or the input
/// ends, and return how many bytes were consumed together with the
/// final recorded value — `(0, 0)` for an empty remainder.  Fails
/// with `Lookup` exactly when a byte has no table entry.
pub fn compress(t: &Table, data: &Vec<u8>, start: usize) -> (r: Result<Chunk, CodecError>)
    requires
        t.wf(),
        start <= data@.len(),
    ensures
        r == chunk_of(
            chunk_rec(t.entries_seq(), t.m(), data@, start as int, 0, SCALE as int, 0, 0),
        ),
        r is Ok ==> r->Ok_0.count <= data@.len() - start,
{
    let m = t.m_units();
    let mut lo: u64 = 0;
    let mut hi: u64 = SCALE;
    let mut count: usize = 0;
    let mut f: u64 = 0;
    let mut i: usize = start;
    while i < data.len()
        invariant
            t.wf(),
            m == t.m(),
            start <= i <= data@.len(),
            count == i - start,
            lo <= hi <= SCALE,
            f <= SCALE,
            chunk_rec(t.entries_seq(), t.m(), data@, start as int, 0, SCALE as int, 0, 0)
                == chunk_rec(
                t.entries_seq(),
                t.m(),
                data@,
                i as int,
                lo as int,
                hi as int,
                count as nat,
                f as int,
            ),
        decreases data@.len() - i,
    {
        let sym = data[i];
        match t.lookup(sym) {
            Option::None => {
                return Err(CodecError::Lookup);
            },
            Option::Some(e) => {
                proof {
                    lemma_lookup_in_entries(t.entries_seq(), sym);
                    let j = choose|j: int|
                        0 <= j < t.entries_seq().len() && (#[trigger] t.entries_seq()[j]).sym
                            == sym && lookup_spec(t.entries_seq(), sym) == Some(
                            t.entries_seq()[j],
                        );
                    assert(e.lo <= e.hi);
                    assert(e.hi as int <= t.total_spec() * (crate::CONTRACT as int));
                    assert(e.hi as int <= t.m());
                }
                let (nlo, nhi) = child(lo, hi, e.lo, e.hi, m);
                if nhi - nlo <= EPS {
                    return Ok(Chunk { count, value: f });
                }
                f = nlo + EPS;
                count = count + 1;
                lo = nlo;
                hi = nhi;
                i = i + 1;
            },
        }
    }
    Ok(Chunk { count, value: f })
}

/// The chunks that encoding `s` from byte `i` onward produces: one
/// encoder run per chunk, each started on the remaining input, until
/// the input is exhausted.  A run that consumes nothing on a
/// non-empty remainder would loop forever — and one that claimed more
/// bytes than remain would derail the schedule — so either is a fatal
/// inconsistency; runs never overshoot in fact, but the guard keeps
/// the recursion well founded on its face.
pub open spec fn chunks_rec(t: Seq<TableEntry>, m: int, s: Seq<u8>, i: int) -> Result<
    Seq<Chunk>,
    CodecError,
>
    decreases s.len() - i,
{
    if i < 0 || i >= s.len() {
        Ok(Seq::empty())
    } else {
        match chunk_rec(t, m, s, i, 0, SCALE as int, 0, 0) {
            Err(e) => Err(e),
            Ok((c, f)) => {
                if c == 0 || i + c > s.len() {
                    Err(CodecError::NoProgress)
                } else {
                    match chunks_rec(t, m, s, i + c) {
                        Err(e) => Err(e),
                        Ok(rest) => Ok(
                            Seq::empty().push(Chunk { count: c as usize, value: f as u64 })
                                + rest,
                        ),
                    }
                }
            },
        }
    }
}

/// What encoding a whole input means: build the input's own table,
/// then run the chunk scheduler over it from the first byte.
pub open spec fn spec_encode(s: Seq<u8>) -> Result<Seq<Chunk>, CodecError> {
    if s.len() == 0 {
        Err(CodecError::EmptyInput)
    } else {
        chunks_rec(spec_table(s), s.len() * (SCALE as int), s, 0)
    }
}

/// Everything one encoding run produces: the frozen table, the coded
/// chunks, and the compression ratio `ratio_num / ratio_den` — coded
/// size in bytes over uncompressed size in bytes — as an exact
/// fraction.
pub struct Encoded {
    pub table: Table,
    pub chunks: Vec<Chunk>,
    pub ratio_num: u128,
    pub ratio_den: usize,
}

/// Encode `data`: build its interval table, then cut it into chunks,
/// each holding one representative value and the number of bytes it
/// stands for.  Fails with `EmptyInput` on an empty input and with
/// `NoProgress` if a chunk cannot consume a single byte.
pub fn encode(data: &Vec<u8>) -> (r: Result<Encoded, CodecError>)
    ensures
        match r {
            Ok(enc) => {
                &&& spec_encode(data@) == Ok::<Seq<Chunk>, CodecError>(enc.chunks@)
                &&& enc.table.wf()
                &&& enc.table.matches(data@)
                &&& enc.ratio_num == enc.chunks@.len() * (VALUE_BYTES as int)
                &&& enc.ratio_den == data@.len()
            },
            Err(e) => spec_encode(data@) == Err::<Seq<Chunk>, CodecError>(e),
        },
{
    let t = match Table::analyze(data) {
        Err(e) => {
            return Err(e);
        },
        Ok(t) => t,
    };
    let mut chunks: Vec<Chunk> = Vec::new();
    let mut i: usize = 0;
    while i < data.len()
        invariant
            t.wf(),
            t.matches(data@),
            1 <= data@.len(),
            i <= data@.len(),
            chunks_rec(t.entries_seq(), t.m(), data@, 0) == (
            match chunks_rec(t.entries_seq(), t.m(), data@, i as int) {
                Ok(rest) => Ok::<Seq<Chunk>, CodecError>(chunks@ + rest),
                Err(e) => Err::<Seq<Chunk>, CodecError>(e),
            }),
        decreases data@.len() - i,
    {
        match compress(&t, data, i) {
            Err(e) => {
                return Err(e);
            },
            Ok(ch) => {
                if ch.count == 0 {
                    return Err(CodecError::NoProgress);
                }
                let ghost tseq = t.entries_seq();
                let ghost mm = t.m();
                let ghost old_i = i as int;
                let ghost prev = chunks@;
                proof {
                    lemma_chunk_count(
                        tseq,
                        t.total_spec(),
                        mm,
                        data@,
                        old_i,
                        0,
                        SCALE as int,
                        0,
                        0,
                    );
                }
                chunks.push(ch);
                i = i + ch.count;
                proof {
                    let rec = chunk_rec(tseq, mm, data@, old_i, 0, SCALE as int, 0, 0);
                    let c = rec->Ok_0.0;
                    let fv = rec->Ok_0.1;
                    assert(c == ch.count as nat && fv == ch.value as int);
                    assert(Chunk { count: c as usize, value: fv as u64 } == ch);
                    assert(chunks@ == prev.push(ch));
                    assert(chunks_rec(tseq, mm, data@, old_i) == (
                    match chunks_rec(tseq, mm, data@, old_i + c) {
                        Err(e) => Err::<Seq<Chunk>, CodecError>(e),
                        Ok(rest) => Ok::<Seq<Chunk>, CodecError>(Seq::empty().push(ch) + rest),
                    }));
                    assert(old_i + c == i as int);
                    match chunks_rec(tseq, mm, data@, i as int) {
                        Ok(rest) => {
                            assert(prev + (Seq::empty().push(ch) + rest) =~= chunks@ + rest);
                        },
                        Err(_) => {},
                    }
                }
            },
        }
    }
    proof {
        assert(chunks@ + Seq::<Chunk>::empty() =~= chunks@);
    }
    let n = chunks.len();
    let num = (n as u128) * (VALUE_BYTES as u128);
    Ok(Encoded { table: t, chunks, ratio_num: num, ratio_den: data.len() })
}

} // verus!
