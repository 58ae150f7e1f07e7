//! What the coder guarantees, proved once over the specification
//! functions: decoding inverts encoding, the table partitions the
//! unit interval, chunk counts cover the input, encoding is a
//! function of the input alone, and out-of-range values are rejected.

use vstd::prelude::*;
use crate::freq::{cum, occ};
use crate::table::{
    TableEntry, entries_wf, lookup_spec, spec_table, lemma_entries_props, lemma_lookup_in_entries,
};
use crate::interval::{
    child_hi, child_lo, lemma_child_bounds, lemma_child_ordered, lemma_div_gap,
};
use crate::encode::{chunk_rec, chunks_rec, spec_encode, lemma_chunk_count};
use crate::decode::{decode_chunks, decode_n, find_sym};
use crate::{Chunk, CodecError, CONTRACT, EPS, N_MAX, SCALE};

verus! {

/// The bytes `syms`, looked up in `t` one after the other, narrow
/// `[lo0, hi0)` exactly to `[lo1, hi1)`.
pub open spec fn chain(
    t: Seq<TableEntry>,
    m: int,
    lo0: int,
    hi0: int,
    syms: Seq<u8>,
    lo1: int,
    hi1: int,
) -> bool
    decreases syms.len(),
{
    if syms.len() == 0 {
        lo1 == lo0 && hi1 == hi0
    } else {
        match lookup_spec(t, syms[0]) {
            Option::None => false,
            Option::Some(e) => chain(
                t,
                m,
                child_lo(lo0, hi0, e.lo as int, m),
                child_hi(lo0, hi0, e.hi as int, m),
                syms.drop_first(),
                lo1,
                hi1,
            ),
        }
    }
}

/// A chain grows at its end: one more looked-up byte narrows the
/// reached interval to that byte's sub-interval.
proof fn lemma_chain_snoc(
    t: Seq<TableEntry>,
    m: int,
    lo0: int,
    hi0: int,
    syms: Seq<u8>,
    lo1: int,
    hi1: int,
    x: u8,
    e: TableEntry,
)
    requires
        chain(t, m, lo0, hi0, syms, lo1, hi1),
        lookup_spec(t, x) == Some(e),
    ensures
        chain(
            t,
            m,
            lo0,
            hi0,
            syms.push(x),
            child_lo(lo1, hi1, e.lo as int, m),
            child_hi(lo1, hi1, e.hi as int, m),
        ),
    decreases syms.len(),
{
    if syms.len() == 0 {
        let nlo = child_lo(lo0, hi0, e.lo as int, m);
        let nhi = child_hi(lo0, hi0, e.hi as int, m);
        assert(syms.push(x)[0] == x);
        assert(syms.push(x).drop_first() =~= Seq::<u8>::empty());
        assert(chain(t, m, nlo, nhi, syms.push(x).drop_first(), nlo, nhi));
        assert(lo1 == lo0 && hi1 == hi0);
    } else {
        let e0 = lookup_spec(t, syms[0])->Some_0;
        lemma_chain_snoc(
            t,
            m,
            child_lo(lo0, hi0, e0.lo as int, m),
            child_hi(lo0, hi0, e0.hi as int, m),
            syms.drop_first(),
            lo1,
            hi1,
            x,
            e,
        );
        assert(syms.push(x)[0] == syms[0]);
        assert(syms.push(x).drop_first() =~= syms.drop_first().push(x));
        assert(chain(
            t,
            m,
            child_lo(lo0, hi0, e0.lo as int, m),
            child_hi(lo0, hi0, e0.hi as int, m),
            syms.push(x).drop_first(),
            child_lo(lo1, hi1, e.lo as int, m),
            child_hi(lo1, hi1, e.hi as int, m),
        ));
    }
}

/// A chained interval nests inside the interval it started from.
proof fn lemma_chain_bounds(
    t: Seq<TableEntry>,
    total: int,
    m: int,
    lo0: int,
    hi0: int,
    syms: Seq<u8>,
    lo1: int,
    hi1: int,
)
    requires
        chain(t, m, lo0, hi0, syms, lo1, hi1),
        entries_wf(t, total),
        total >= 1,
        m == total * (SCALE as int),
        0 <= lo0 <= hi0,
    ensures
        lo0 <= lo1,
        hi1 <= hi0,
        lo1 <= hi1,
    decreases syms.len(),
{
    if syms.len() > 0 {
        let e = lookup_spec(t, syms[0])->Some_0;
        lemma_lookup_in_entries(t, syms[0]);
        let j = choose|j: int|
            0 <= j < t.len() && (#[trigger] t[j]).sym == syms[0] && lookup_spec(t, syms[0])
                == Some(t[j]);
        assert(e.hi as int <= total * (CONTRACT as int));
        lemma_child_bounds(lo0, hi0, e.lo as int, e.hi as int, m);
        lemma_chain_bounds(
            t,
            total,
            m,
            child_lo(lo0, hi0, e.lo as int, m),
            child_hi(lo0, hi0, e.hi as int, m),
            syms.drop_first(),
            lo1,
            hi1,
        );
    }
}

/// In a well-formed table, intervals of entries further along start
/// no earlier than earlier entries end.
proof fn lemma_wf_intervals_ordered(t: Seq<TableEntry>, total: int, k: int, j: int)
    requires
        entries_wf(t, total),
        0 <= k < j < t.len(),
    ensures
        t[k].hi <= t[j].lo,
    decreases j - k,
{
    if k + 1 < j {
        lemma_wf_intervals_ordered(t, total, k, j - 1);
    }
}

/// The scan finds `j` when every earlier entry fails the strict
/// containment test and `j` passes it.
proof fn lemma_find_sym_at(
    t: Seq<TableEntry>,
    m: int,
    lo: int,
    hi: int,
    f: int,
    j0: int,
    j: int,
)
    requires
        0 <= j0 <= j < t.len(),
        forall|k: int|
            j0 <= k < j ==> !(child_lo(lo, hi, (#[trigger] t[k]).lo as int, m) < f && f < child_hi(
                lo,
                hi,
                t[k].hi as int,
                m,
            )),
        child_lo(lo, hi, t[j].lo as int, m) < f,
        f < child_hi(lo, hi, t[j].hi as int, m),
    ensures
        find_sym(t, m, lo, hi, f, j0) == Some(j),
    decreases j - j0,
{
    if j0 < j {
        lemma_find_sym_at(t, m, lo, hi, f, j0 + 1, j);
    }
}

/// The scan finds nothing when no entry passes the containment test.
proof fn lemma_find_sym_none(t: Seq<TableEntry>, m: int, lo: int, hi: int, f: int, j0: int)
    requires
        0 <= j0,
        forall|k: int|
            j0 <= k < t.len() ==> !(child_lo(lo, hi, (#[trigger] t[k]).lo as int, m) < f && f
                < child_hi(lo, hi, t[k].hi as int, m)),
    ensures
        find_sym(t, m, lo, hi, f, j0) is None,
    decreases t.len() - j0,
{
    if j0 < t.len() {
        lemma_find_sym_none(t, m, lo, hi, f, j0 + 1);
    }
}

/// The heart of the round trip: a value strictly inside the interval
/// that a byte sequence chains down to decodes back to exactly that
/// byte sequence.
proof fn lemma_chain_decode(
    t: Seq<TableEntry>,
    total: int,
    m: int,
    lo0: int,
    hi0: int,
    syms: Seq<u8>,
    lo1: int,
    hi1: int,
    f: int,
)
    requires
        entries_wf(t, total),
        total >= 1,
        m == total * (SCALE as int),
        0 <= lo0 <= hi0 <= SCALE,
        chain(t, m, lo0, hi0, syms, lo1, hi1),
        lo1 < f < hi1,
    ensures
        decode_n(t, m, lo0, hi0, f, syms.len()) == Some(syms),
    decreases syms.len(),
{
    if syms.len() == 0 {
        assert(decode_n(t, m, lo0, hi0, f, 0) == Some(Seq::<u8>::empty()));
    } else {
        let x = syms[0];
        let e = lookup_spec(t, x)->Some_0;
        lemma_lookup_in_entries(t, x);
        let j = choose|j: int|
            0 <= j < t.len() && (#[trigger] t[j]).sym == x && lookup_spec(t, x) == Some(t[j]);
        assert(t[j] == e);
        assert(e.lo <= e.hi && e.hi as int <= total * (CONTRACT as int));
        let nlo = child_lo(lo0, hi0, e.lo as int, m);
        let nhi = child_hi(lo0, hi0, e.hi as int, m);
        lemma_child_bounds(lo0, hi0, e.lo as int, e.hi as int, m);
        lemma_chain_bounds(t, total, m, nlo, nhi, syms.drop_first(), lo1, hi1);
        // The value lies strictly inside entry j's sub-interval and at
        // or past the end of every earlier entry's sub-interval.
        assert(nlo < f && f < nhi);
        assert forall|k: int|
            0 <= k < j implies !(child_lo(lo0, hi0, (#[trigger] t[k]).lo as int, m) < f && f
            < child_hi(lo0, hi0, t[k].hi as int, m)) by {
            lemma_wf_intervals_ordered(t, total, k, j);
            lemma_child_ordered(lo0, hi0, t[k].hi as int, t[j].lo as int, m);
        }
        lemma_find_sym_at(t, m, lo0, hi0, f, 0, j);
        lemma_chain_decode(t, total, m, nlo, nhi, syms.drop_first(), lo1, hi1, f);
        assert(Seq::empty().push(x) + syms.drop_first() =~= syms);
    }
}

/// One encoder run, started on a state its own loop reached, ends in
/// a value that decodes to exactly the bytes the run counted.
proof fn lemma_chunk_roundtrip_rec(
    t: Seq<TableEntry>,
    total: int,
    m: int,
    s: Seq<u8>,
    i0: int,
    i: int,
    lo: int,
    hi: int,
    c: nat,
    f: int,
)
    requires
        entries_wf(t, total),
        total >= 1,
        m == total * (SCALE as int),
        0 <= i0 <= i <= s.len(),
        c == i - i0,
        chain(t, m, 0, SCALE as int, s.subrange(i0, i), lo, hi),
        0 <= lo <= hi <= SCALE,
        c >= 1 ==> f == lo + EPS && lo + EPS < hi,
        chunk_rec(t, m, s, i, lo, hi, c, f) is Ok,
    ensures
        ({
            let (c2, f2) = chunk_rec(t, m, s, i, lo, hi, c, f)->Ok_0;
            c2 >= 1 ==> decode_n(t, m, 0, SCALE as int, f2, c2) == Some(
                s.subrange(i0, i0 + c2),
            )
        }),
    decreases s.len() - i,
{
    let done = chunk_rec(t, m, s, i, lo, hi, c, f);
    if i >= s.len() {
        if c >= 1 {
            lemma_chain_decode(t, total, m, 0, SCALE as int, s.subrange(i0, i), lo, hi, f);
        }
    } else {
        match lookup_spec(t, s[i]) {
            Option::None => {},
            Option::Some(e) => {
                lemma_lookup_in_entries(t, s[i]);
                let j = choose|j: int|
                    0 <= j < t.len() && (#[trigger] t[j]).sym == s[i] && lookup_spec(t, s[i])
                        == Some(t[j]);
                assert(e.hi as int <= total * (CONTRACT as int));
                lemma_child_bounds(lo, hi, e.lo as int, e.hi as int, m);
                let nlo = child_lo(lo, hi, e.lo as int, m);
                let nhi = child_hi(lo, hi, e.hi as int, m);
                if nhi - nlo <= EPS {
                    if c >= 1 {
                        lemma_chain_decode(
                            t,
                            total,
                            m,
                            0,
                            SCALE as int,
                            s.subrange(i0, i),
                            lo,
                            hi,
                            f,
                        );
                    }
                } else {
                    lemma_chain_snoc(t, m, 0, SCALE as int, s.subrange(i0, i), lo, hi, s[i], e);
                    assert(s.subrange(i0, i).push(s[i]) =~= s.subrange(i0, i + 1));
                    lemma_chunk_roundtrip_rec(
                        t,
                        total,
                        m,
                        s,
                        i0,
                        i + 1,
                        nlo,
                        nhi,
                        (c + 1) as nat,
                        nlo + EPS,
                    );
                }
            },
        }
    }
}

/// Decoding the scheduler's chunks, chunk by chunk, rebuilds the
/// input from byte `i` on.
proof fn lemma_chunks_roundtrip(t: Seq<TableEntry>, total: int, m: int, s: Seq<u8>, i: int)
    requires
        entries_wf(t, total),
        total >= 1,
        m == total * (SCALE as int),
        0 <= i <= s.len(),
        s.len() <= usize::MAX,
        chunks_rec(t, m, s, i) is Ok,
    ensures
        decode_chunks(t, m, chunks_rec(t, m, s, i)->Ok_0) == Some(s.subrange(i, s.len() as int)),
    decreases s.len() - i,
{
    if i >= s.len() {
        assert(s.subrange(i, s.len() as int) =~= Seq::<u8>::empty());
    } else {
        let rec = chunk_rec(t, m, s, i, 0, SCALE as int, 0, 0);
        let (c, fv) = rec->Ok_0;
        lemma_chunk_count(t, total, m, s, i, 0, SCALE as int, 0, 0);
        assert(s.subrange(i, i) =~= Seq::<u8>::empty());
        lemma_chunk_roundtrip_rec(t, total, m, s, i, i, 0, SCALE as int, 0, 0);
        lemma_chunks_roundtrip(t, total, m, s, i + c);
        let ch = Chunk { count: c as usize, value: fv as u64 };
        let rest = chunks_rec(t, m, s, i + c)->Ok_0;
        let all = Seq::empty().push(ch) + rest;
        assert(all[0] == ch);
        assert(all.drop_first() =~= rest);
        assert(ch.value as int == fv && ch.count as nat == c);
        assert(decode_n(t, m, 0, SCALE as int, fv, c) == Some(s.subrange(i, i + c)));
        assert(s.subrange(i, i + c) + s.subrange(i + c, s.len() as int) =~= s.subrange(
            i,
            s.len() as int,
        ));
    }
}

/// Every byte of a sequence occurs in it.
proof fn lemma_occ_positive(s: Seq<u8>, i: int)
    requires
        0 <= i < s.len(),
    ensures
        occ(s, s[i]) > 0,
    decreases s.len(),
{
    if i + 1 < s.len() {
        lemma_occ_positive(s.drop_last(), i);
    }
}

/// An encoder run over a table that holds every remaining byte never
/// fails.
proof fn lemma_chunk_total(
    t: Seq<TableEntry>,
    m: int,
    s: Seq<u8>,
    i: int,
    lo: int,
    hi: int,
    c: nat,
    f: int,
)
    requires
        0 <= i <= s.len(),
        forall|k: int| i <= k < s.len() ==> lookup_spec(t, #[trigger] s[k]) is Some,
    ensures
        chunk_rec(t, m, s, i, lo, hi, c, f) is Ok,
    decreases s.len() - i,
{
    if i < s.len() {
        let e = lookup_spec(t, s[i])->Some_0;
        let nlo = child_lo(lo, hi, e.lo as int, m);
        let nhi = child_hi(lo, hi, e.hi as int, m);
        if nhi - nlo > EPS {
            lemma_chunk_total(t, m, s, i + 1, nlo, nhi, (c + 1) as nat, nlo + EPS);
        }
    }
}

/// Success is owed: on inputs of at most `N_MAX` bytes, every chunk's
/// first byte narrows the fresh unit interval to a width above `EPS`,
/// so every chunk makes progress and encoding returns chunks.
pub proof fn lemma_encode_succeeds(s: Seq<u8>)
    requires
        1 <= s.len() <= N_MAX,
    ensures
        spec_encode(s) is Ok,
{
    lemma_entries_props(s, 256);
    lemma_chunks_rec_succeeds(s, 0);
}

/// The chunk scheduler, started anywhere in an input of at most
/// `N_MAX` bytes over that input's own table, returns chunks.
proof fn lemma_chunks_rec_succeeds(s: Seq<u8>, i: int)
    requires
        1 <= s.len() <= N_MAX,
        0 <= i <= s.len(),
    ensures
        chunks_rec(spec_table(s), s.len() * (SCALE as int), s, i) is Ok,
    decreases s.len() - i,
{
    let t = spec_table(s);
    let total = s.len() as int;
    let m = total * (SCALE as int);
    lemma_entries_props(s, 256);
    lemma_spec_table_wf(s);
    if i < s.len() {
        assert forall|k: int| i <= k < s.len() implies lookup_spec(t, #[trigger] s[k]) is Some by {
            lemma_occ_positive(s, k);
            lemma_lookup_in_entries(t, s[k]);
        }
        lemma_chunk_total(t, m, s, i, 0, SCALE as int, 0, 0);
        // The first byte of the chunk makes progress: its interval is
        // at least CONTRACT numerator units wide, and over a
        // denominator of at most N_MAX * SCALE the narrowed width
        // comes out at two units or more.
        lemma_occ_positive(s, i);
        lemma_lookup_in_entries(t, s[i]);
        let e = lookup_spec(t, s[i])->Some_0;
        let j = choose|j: int|
            0 <= j < t.len() && (#[trigger] t[j]).sym == s[i] && lookup_spec(t, s[i]) == Some(
                t[j],
            );
        assert(t[j] == e);
        assert(e.hi as int - e.lo as int == occ(s, s[i]) * (CONTRACT as int));
        assert(e.hi as int - e.lo as int >= CONTRACT as int) by {
            assert(occ(s, s[i]) >= 1);
            vstd::arithmetic::mul::lemma_mul_inequality(1, occ(s, s[i]) as int, CONTRACT as int);
        }
        let x = (SCALE as int) * (e.lo as int);
        let y = (SCALE as int) * (e.hi as int);
        assert(y - x >= (SCALE as int) * (CONTRACT as int)) by (nonlinear_arith)
            requires
                y == (SCALE as int) * (e.hi as int),
                x == (SCALE as int) * (e.lo as int),
                e.hi as int - e.lo as int >= CONTRACT as int,
        ;
        assert(x + 3 * m - 1 <= y) by {
            assert(3 * total <= CONTRACT as int);
            assert(3 * m == (3 * total) * (SCALE as int)) by (nonlinear_arith)
                requires
                    m == total * (SCALE as int),
            ;
            assert((3 * total) * (SCALE as int) <= (CONTRACT as int) * (SCALE as int)) by {
                vstd::arithmetic::mul::lemma_mul_inequality(
                    3 * total,
                    CONTRACT as int,
                    SCALE as int,
                );
            }
        }
        assert(x >= 0) by (nonlinear_arith)
            requires
                x == (SCALE as int) * (e.lo as int),
                e.lo as int >= 0,
        ;
        lemma_div_gap(x, y, m);
        lemma_child_bounds(0, SCALE as int, e.lo as int, e.hi as int, m);
        let nlo = child_lo(0, SCALE as int, e.lo as int, m);
        let nhi = child_hi(0, SCALE as int, e.hi as int, m);
        assert(nhi - nlo >= 2);
        // So the run counts at least that byte, and the scheduler can
        // recurse past it.
        let rec = chunk_rec(t, m, s, i, 0, SCALE as int, 0, 0);
        assert(rec == chunk_rec(t, m, s, i + 1, nlo, nhi, 1, nlo + EPS));
        let (c, fv) = rec->Ok_0;
        lemma_chunk_count(t, total, m, s, i + 1, nlo, nhi, 1, nlo + EPS);
        assert(c >= 1);
        lemma_chunk_count(t, total, m, s, i, 0, SCALE as int, 0, 0);
        lemma_chunks_rec_succeeds(s, i + c);
    }
}

/// Round trip: decoding a successful encoding against the input's
/// own table rebuilds the input exactly.  Together with
/// `lemma_encode_succeeds`, this holds for every non-empty input of
/// at most `N_MAX` bytes.
pub proof fn lemma_round_trip(s: Seq<u8>)
    requires
        1 <= s.len() <= usize::MAX,
        spec_encode(s) is Ok,
    ensures
        decode_chunks(spec_table(s), s.len() * (SCALE as int), spec_encode(s)->Ok_0) == Some(s),
{
    lemma_entries_props(s, 256);
    lemma_spec_table_wf(s);
    lemma_chunks_roundtrip(spec_table(s), s.len() as int, s.len() * (SCALE as int), s, 0);
    assert(s.subrange(0, s.len() as int) =~= s);
}

/// The built table is well-formed in the sense the coders require.
pub proof fn lemma_spec_table_wf(s: Seq<u8>)
    requires
        1 <= s.len() <= usize::MAX,
    ensures
        entries_wf(spec_table(s), s.len() as int),
{
    lemma_entries_props(s, 256);
    let t = spec_table(s);
    assert forall|j: int| 0 <= j < t.len() implies (#[trigger] t[j]).lo <= t[j].hi && t[j].hi
        <= s.len() * (CONTRACT as int) by {
        let e = t[j];
        crate::freq::lemma_cum_monotonic(s, e.sym as int, e.sym as int + 1);
        crate::freq::lemma_cum_le_len(s, e.sym as int + 1);
        vstd::arithmetic::mul::lemma_mul_inequality(
            cum(s, e.sym as int) as int,
            cum(s, e.sym as int + 1) as int,
            CONTRACT as int,
        );
        vstd::arithmetic::mul::lemma_mul_inequality(
            cum(s, e.sym as int + 1) as int,
            s.len() as int,
            CONTRACT as int,
        );
    }
}

/// The sum of the chunk byte counts.
pub open spec fn count_sum(chunks: Seq<Chunk>) -> int
    decreases chunks.len(),
{
    if chunks.len() == 0 {
        0
    } else {
        chunks[0].count + count_sum(chunks.drop_first())
    }
}

/// Chunk coverage: the scheduler's chunks account for every byte from
/// `i` to the end of the input, exactly once.
proof fn lemma_chunks_cover(t: Seq<TableEntry>, total: int, m: int, s: Seq<u8>, i: int)
    requires
        entries_wf(t, total),
        total >= 1,
        m == total * (SCALE as int),
        0 <= i <= s.len(),
        s.len() <= usize::MAX,
        chunks_rec(t, m, s, i) is Ok,
    ensures
        count_sum(chunks_rec(t, m, s, i)->Ok_0) == s.len() - i,
    decreases s.len() - i,
{
    if i < s.len() {
        let rec = chunk_rec(t, m, s, i, 0, SCALE as int, 0, 0);
        let (c, fv) = rec->Ok_0;
        lemma_chunk_count(t, total, m, s, i, 0, SCALE as int, 0, 0);
        lemma_chunks_cover(t, total, m, s, i + c);
        let ch = Chunk { count: c as usize, value: fv as u64 };
        let rest = chunks_rec(t, m, s, i + c)->Ok_0;
        assert((Seq::empty().push(ch) + rest)[0] == ch);
        assert((Seq::empty().push(ch) + rest).drop_first() =~= rest);
    }
}

/// Chunk coverage, at the top level: the counts of a successful
/// encoding sum to the input's length.
pub proof fn lemma_chunk_coverage(s: Seq<u8>)
    requires
        1 <= s.len() <= usize::MAX,
        spec_encode(s) is Ok,
    ensures
        count_sum(spec_encode(s)->Ok_0) == s.len(),
{
    lemma_spec_table_wf(s);
    lemma_chunks_cover(spec_table(s), s.len() as int, s.len() * (SCALE as int), s, 0);
}

/// The total numerator width of a table's intervals.
pub open spec fn width_sum(t: Seq<TableEntry>) -> int
    decreases t.len(),
{
    if t.len() == 0 {
        0
    } else {
        t[0].hi - t[0].lo + width_sum(t.drop_first())
    }
}

/// Appending an entry adds exactly its width to the total.
proof fn lemma_width_sum_push(t: Seq<TableEntry>, e: TableEntry)
    ensures
        width_sum(t.push(e)) == width_sum(t) + (e.hi - e.lo),
    decreases t.len(),
{
    if t.len() == 0 {
        assert(t.push(e)[0] == e);
        assert(t.push(e).drop_first() =~= Seq::<TableEntry>::empty());
        assert(width_sum(Seq::<TableEntry>::empty()) == 0);
        assert(width_sum(t) == 0);
    } else {
        lemma_width_sum_push(t.drop_first(), e);
        assert(t.push(e)[0] == t[0]);
        assert(t.push(e).drop_first() =~= t.drop_first().push(e));
        assert(width_sum(t.push(e)) == t[0].hi - t[0].lo + width_sum(t.drop_first().push(e)));
    }
}

/// The widths of the entries below byte value `b` sum to the
/// cumulative count below `b`, contracted.
proof fn lemma_entries_width(s: Seq<u8>, b: int)
    requires
        0 <= b <= 256,
        s.len() <= usize::MAX,
    ensures
        width_sum(crate::table::spec_entries(s, b)) == cum(s, b) * (CONTRACT as int),
    decreases b,
{
    if b > 0 {
        lemma_entries_width(s, b - 1);
        crate::freq::lemma_cum_le_len(s, b - 1);
        crate::freq::lemma_cum_le_len(s, b);
        if occ(s, (b - 1) as u8) > 0 {
            let e = TableEntry {
                sym: (b - 1) as u8,
                lo: (cum(s, b - 1) * (CONTRACT as nat)) as u128,
                hi: (cum(s, b) * (CONTRACT as nat)) as u128,
            };
            assert(cum(s, b - 1) * (CONTRACT as nat) <= s.len() * (CONTRACT as nat));
            assert(cum(s, b) * (CONTRACT as nat) <= s.len() * (CONTRACT as nat));
            lemma_width_sum_push(crate::table::spec_entries(s, b - 1), e);
        }
    }
}

/// Table partition: the built table's intervals are pairwise
/// non-overlapping and adjacent — no gaps — starting at zero; their
/// total measure is strictly below one, and falls short of the full
/// denominator by exactly one part in `SCALE`: the machine epsilon of
/// the fixed-point model.
pub proof fn lemma_table_partition(s: Seq<u8>)
    requires
        1 <= s.len() <= usize::MAX,
    ensures
        ({
            let t = spec_table(s);
            let m = s.len() * (SCALE as int);
            &&& t.len() > 0
            &&& t[0].lo == 0
            &&& (forall|j: int, k: int|
                0 <= j < k < t.len() ==> (#[trigger] t[j]).hi <= (#[trigger] t[k]).lo)
            &&& (forall|j: int| 0 <= j && j + 1 < t.len() ==> (#[trigger] t[j]).hi == t[j + 1].lo)
            &&& width_sum(t) == s.len() * (CONTRACT as int)
            &&& width_sum(t) < m
            &&& (m - width_sum(t)) * (SCALE as int) == m
        }),
{
    let t = spec_table(s);
    lemma_entries_props(s, 256);
    lemma_spec_table_wf(s);
    lemma_entries_width(s, 256);
    crate::freq::lemma_cum_total(s);
    lemma_occ_positive(s, 0);
    assert(exists|j: int| 0 <= j < t.len() && (#[trigger] t[j]).sym == s[0]);
    assert forall|j: int, k: int|
        0 <= j < k < t.len() implies (#[trigger] t[j]).hi <= (#[trigger] t[k]).lo by {
        lemma_wf_intervals_ordered(t, s.len() as int, j, k);
    }
}

/// Determinism: encoding is a function of the input alone, so two
/// encodings of the same input are identical, bit for bit.
pub proof fn lemma_deterministic(
    s: Seq<u8>,
    r1: Result<Seq<Chunk>, CodecError>,
    r2: Result<Seq<Chunk>, CodecError>,
)
    requires
        r1 == spec_encode(s),
        r2 == spec_encode(s),
    ensures
        r1 == r2,
{
}

/// A value at or past one, or at or below zero, lies in no entry's
/// sub-interval of the fresh unit interval: decoding any number of
/// bytes from it is rejected rather than read out of range.
pub proof fn lemma_decode_rejects_out_of_range(
    t: Seq<TableEntry>,
    total: int,
    m: int,
    f: int,
    n: nat,
)
    requires
        entries_wf(t, total),
        total >= 1,
        m == total * (SCALE as int),
        n >= 1,
        f <= 0 || f >= SCALE,
    ensures
        decode_n(t, m, 0, SCALE as int, f, n) is None,
{
    assert forall|k: int|
        0 <= k < t.len() implies !(child_lo(0, SCALE as int, (#[trigger] t[k]).lo as int, m) < f
        && f < child_hi(0, SCALE as int, t[k].hi as int, m)) by {
        assert(t[k].hi as int <= total * (CONTRACT as int));
        lemma_child_bounds(0, SCALE as int, t[k].lo as int, t[k].hi as int, m);
    }
    lemma_find_sym_none(t, m, 0, SCALE as int, f, 0);
}

/// A value lying exactly on the boundary of some entry's first-step
/// sub-interval is strictly inside no entry's sub-interval: decoding
/// any number of bytes from it is rejected rather than resolved to an
/// arbitrary neighbour.
pub proof fn lemma_decode_rejects_boundary(
    t: Seq<TableEntry>,
    total: int,
    m: int,
    f: int,
    n: nat,
    j: int,
)
    requires
        entries_wf(t, total),
        total >= 1,
        m == total * (SCALE as int),
        n >= 1,
        0 <= j < t.len(),
        f == child_lo(0, SCALE as int, t[j].lo as int, m) || f == child_hi(
            0,
            SCALE as int,
            t[j].hi as int,
            m,
        ),
    ensures
        decode_n(t, m, 0, SCALE as int, f, n) is None,
{
    assert(t[j].hi as int <= total * (CONTRACT as int));
    lemma_child_bounds(0, SCALE as int, t[j].lo as int, t[j].hi as int, m);
    assert forall|k: int|
        0 <= k < t.len() implies !(child_lo(0, SCALE as int, (#[trigger] t[k]).lo as int, m) < f
        && f < child_hi(0, SCALE as int, t[k].hi as int, m)) by {
        assert(t[k].hi as int <= total * (CONTRACT as int));
        lemma_child_bounds(0, SCALE as int, t[k].lo as int, t[k].hi as int, m);
        if k < j {
            // Entry k's sub-interval ends at or before entry j's
            // begins, and f lies at or past that point.
            lemma_wf_intervals_ordered(t, total, k, j);
            lemma_child_ordered(0, SCALE as int, t[k].hi as int, t[j].lo as int, m);
        } else if k > j {
            // Entry k's sub-interval begins at or after entry j's
            // ends, and f lies at or before that point.
            lemma_wf_intervals_ordered(t, total, j, k);
            lemma_child_ordered(0, SCALE as int, t[j].hi as int, t[k].lo as int, m);
            lemma_child_ordered(0, SCALE as int, t[j].lo as int, t[k].lo as int, m);
        }
    }
    lemma_find_sym_none(t, m, 0, SCALE as int, f, 0);
}

} // verus!
