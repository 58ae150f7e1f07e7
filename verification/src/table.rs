//! The interval table: for every byte value present in the input, its
//! cumulative-probability sub-interval of [0,1), held in fixed point
//! over the common denominator `total * SCALE`.

use vstd::prelude::*;
use crate::freq::{occ, cum, lemma_cum_le_len, lemma_cum_total, lemma_occ_push, lemma_occ_le_len};
use crate::{CodecError, CONTRACT, SCALE};

verus! {

/// One row of the interval table: byte `sym` owns the sub-interval
/// `[lo / m, hi / m)` where `m` is the table's common denominator.
#[derive(Clone, Copy, PartialEq, Eq, Structural, Debug)]
pub struct TableEntry {
    pub sym: u8,
    pub lo: u128,
    pub hi: u128,
}

/// The entries of the table built from `s`, restricted to byte values
/// below `b`, in ascending byte order.  A byte with `k` occurrences in
/// `s` owns an interval of `k * CONTRACT` numerator units over the
/// denominator `s.len() * SCALE`; the contraction keeps the cumulative
/// upper bounds strictly below one.
pub open spec fn spec_entries(s: Seq<u8>, b: int) -> Seq<TableEntry>
    decreases b,
{
    if b <= 0 {
        Seq::empty()
    } else {
        let rest = spec_entries(s, b - 1);
        if occ(s, (b - 1) as u8) > 0 {
            rest.push(
                TableEntry {
                    sym: (b - 1) as u8,
                    lo: (cum(s, b - 1) * (CONTRACT as nat)) as u128,
                    hi: (cum(s, b) * (CONTRACT as nat)) as u128,
                },
            )
        } else {
            rest
        }
    }
}

/// The full interval table built from `s`.
pub open spec fn spec_table(s: Seq<u8>) -> Seq<TableEntry> {
    spec_entries(s, 256)
}

/// What decoding and encoding rely on: entries are sorted by byte
/// value, their intervals are ordered and non-overlapping, and every
/// numerator stays at or below `total * CONTRACT`, which itself lies
/// below the denominator `total * SCALE`.
pub open spec fn entries_wf(t: Seq<TableEntry>, total: int) -> bool {
    &&& (forall|j: int| 0 <= j < t.len() ==> (#[trigger] t[j]).lo <= t[j].hi)
    &&& (forall|j: int|
        0 <= j < t.len() ==> (#[trigger] t[j]).hi <= total * (CONTRACT as int))
    &&& (forall|j: int| 0 <= j && j + 1 < t.len() ==> (#[trigger] t[j]).hi <= t[j + 1].lo)
    &&& (forall|j: int, k: int|
        0 <= j < k < t.len() ==> (#[trigger] t[j]).sym < (#[trigger] t[k]).sym)
}

/// The first entry of `t` whose byte value is `b`, scanning in order.
pub open spec fn lookup_spec(t: Seq<TableEntry>, b: u8) -> Option<TableEntry>
    decreases t.len(),
{
    if t.len() == 0 {
        None
    } else if t[0].sym == b {
        Some(t[0])
    } else {
        lookup_spec(t.drop_first(), b)
    }
}

/// Everything the construction guarantees about `spec_entries(s, b)`,
/// proved in one induction over the byte values: each entry carries
/// the exact cumulative bounds of its byte, entries are sorted and
/// adjacent (no gaps, no overlaps), every present byte below `b` has
/// an entry, and the numerators telescope from zero to
/// `cum(s, b) * CONTRACT`.
pub proof fn lemma_entries_props(s: Seq<u8>, b: int)
    requires
        0 <= b <= 256,
        s.len() <= usize::MAX,
    ensures
        ({
            let t = spec_entries(s, b);
            &&& (forall|j: int|
                0 <= j < t.len() ==> {
                    let e = #[trigger] t[j];
                    &&& (e.sym as int) < b
                    &&& occ(s, e.sym) > 0
                    &&& e.lo as int == cum(s, e.sym as int) * (CONTRACT as int)
                    &&& e.hi as int == cum(s, e.sym as int + 1) * (CONTRACT as int)
                })
            &&& (forall|j: int, k: int|
                0 <= j < k < t.len() ==> (#[trigger] t[j]).sym < (#[trigger] t[k]).sym)
            &&& (forall|c: u8|
                (c as int) < b && #[trigger] occ(s, c) > 0 ==> exists|j: int|
                    0 <= j < t.len() && (#[trigger] t[j]).sym == c)
            &&& (t.len() == 0 ==> cum(s, b) == 0)
            &&& (t.len() > 0 ==> t.last().hi as int == cum(s, b) * (CONTRACT as int)
                && t[0].lo == 0)
            &&& (forall|j: int| 0 <= j && j + 1 < t.len() ==> (#[trigger] t[j]).hi == t[j + 1].lo)
        }),
    decreases b,
{
    if b > 0 {
        lemma_entries_props(s, b - 1);
        lemma_cum_le_len(s, b - 1);
        lemma_cum_le_len(s, b);
        let rest = spec_entries(s, b - 1);
        let t = spec_entries(s, b);
        if occ(s, (b - 1) as u8) > 0 {
            let e = TableEntry {
                sym: (b - 1) as u8,
                lo: (cum(s, b - 1) * (CONTRACT as nat)) as u128,
                hi: (cum(s, b) * (CONTRACT as nat)) as u128,
            };
            assert(t =~= rest.push(e));
            assert(cum(s, b - 1) * (CONTRACT as nat) <= s.len() * (CONTRACT as nat));
            assert(cum(s, b) * (CONTRACT as nat) <= s.len() * (CONTRACT as nat));
            assert(forall|j: int| 0 <= j < rest.len() ==> t[j] == rest[j]);
            assert(t[t.len() - 1] == e);
            assert(forall|c: u8|
                (c as int) < b && #[trigger] occ(s, c) > 0 ==> exists|j: int|
                    0 <= j < t.len() && (#[trigger] t[j]).sym == c) by {
                assert forall|c: u8| (c as int) < b && #[trigger] occ(s, c) > 0 implies exists|
                    j: int,
                |
                    0 <= j < t.len() && (#[trigger] t[j]).sym == c by {
                    if (c as int) < b - 1 {
                        let j = choose|j: int| 0 <= j < rest.len() && (#[trigger] rest[j]).sym == c;
                        assert(t[j].sym == c);
                    } else {
                        assert(t[t.len() - 1].sym == c);
                    }
                }
            }
        } else {
            assert(t =~= rest);
        }
    }
}

/// Present bytes and only present bytes can be looked up, and the
/// entry found carries that byte's exact cumulative bounds.
pub proof fn lemma_lookup_in_entries(t: Seq<TableEntry>, b: u8)
    ensures
        ({
            let r = lookup_spec(t, b);
            &&& (r is Some ==> exists|j: int|
                0 <= j < t.len() && (#[trigger] t[j]).sym == b && r == Some(t[j]))
            &&& ((exists|j: int| 0 <= j < t.len() && (#[trigger] t[j]).sym == b) ==> r is Some)
        }),
    decreases t.len(),
{
    if t.len() > 0 && t[0].sym != b {
        lemma_lookup_in_entries(t.drop_first(), b);
        let rest = t.drop_first();
        if lookup_spec(t, b) is Some {
            let j = choose|j: int| 0 <= j < rest.len() && (#[trigger] rest[j]).sym == b
                && lookup_spec(rest, b) == Some(rest[j]);
            assert(t[j + 1].sym == b && lookup_spec(t, b) == Some(t[j + 1]));
        }
        if exists|j: int| 0 <= j < t.len() && (#[trigger] t[j]).sym == b {
            let j = choose|j: int| 0 <= j < t.len() && (#[trigger] t[j]).sym == b;
            assert(rest[j - 1].sym == b);
        }
    }
}

/// The interval table, frozen for one input: the input's length (the
/// denominator is `total * SCALE`) and the sub-interval of every byte
/// value that occurs, in ascending byte order.
pub struct Table {
    total: usize,
    entries: Vec<TableEntry>,
}

impl Table {
    /// The entries, for specifications.
    pub closed spec fn entries_seq(self) -> Seq<TableEntry> {
        self.entries@
    }

    /// The input length the table was built from, for specifications.
    pub closed spec fn total_spec(self) -> int {
        self.total as int
    }

    /// The common denominator of all entry bounds.
    pub open spec fn m(self) -> int {
        self.total_spec() * (SCALE as int)
    }

    /// A table fit for coding: built over at least one byte, with
    /// sorted, non-overlapping, bounded intervals.
    pub open spec fn wf(self) -> bool {
        &&& 1 <= self.total_spec() <= 0xffff_ffff_ffff_ffffu64
        &&& entries_wf(self.entries_seq(), self.total_spec())
    }

    /// The table is exactly the one that `s` gives rise to.
    pub open spec fn matches(self, s: Seq<u8>) -> bool {
        &&& self.total_spec() == s.len()
        &&& self.entries_seq() == spec_table(s)
    }

    /// The input length the table was built from.
    pub fn total(&self) -> (r: usize)
        ensures
            r as int == self.total_spec(),
    {
        self.total
    }

    /// The number of distinct byte values in the table.
    pub fn entry_count(&self) -> (r: usize)
        ensures
            r as int == self.entries_seq().len(),
    {
        self.entries.len()
    }

    /// Read one entry, for diagnostics and for the decoder's scan; the
    /// table itself cannot be altered from outside.
    pub fn entry_at(&self, j: usize) -> (e: TableEntry)
        requires
            j < self.entries_seq().len(),
        ensures
            e == self.entries_seq()[j as int],
    {
        self.entries[j]
    }

    /// The common denominator of all entry bounds, in one machine word.
    pub fn m_units(&self) -> (r: u128)
        ensures
            r == self.m(),
    {
        proof {
            assert((self.total as int) * (SCALE as int) <= u128::MAX as int)
                by (nonlinear_arith)
                requires
                    self.total as int <= 0xffff_ffff_ffff_ffffu64 as int,
            ;
        }
        (self.total as u128) * (SCALE as u128)
    }

    /// Find the entry of byte `b`, scanning in ascending order.
    pub fn lookup(&self, b: u8) -> (r: Option<TableEntry>)
        ensures
            r == lookup_spec(self.entries_seq(), b),
    {
        let n = self.entries.len();
        let mut j: usize = 0;
        proof {
            assert(self.entries_seq().skip(0) =~= self.entries_seq());
        }
        while j < n
            invariant
                n == self.entries_seq().len(),
                j <= n,
                lookup_spec(self.entries_seq(), b) == lookup_spec(
                    self.entries_seq().skip(j as int),
                    b,
                ),
            decreases n - j,
        {
            let e = self.entries[j];
            if e.sym == b {
                assert(self.entries_seq().skip(j as int)[0] == e);
                return Some(e);
            }
            assert(self.entries_seq().skip(j as int).drop_first() =~= self.entries_seq().skip(
                j as int + 1,
            ));
            j += 1;
        }
        assert(self.entries_seq().skip(j as int).len() == 0);
        None
    }

    /// Build the interval table of `data`: count every byte, then turn
    /// the counts into cumulative intervals in ascending byte order.
    /// Fails exactly when `data` is empty.
    pub fn analyze(data: &Vec<u8>) -> (r: Result<Table, CodecError>)
        ensures
            match r {
                Ok(t) => data@.len() > 0 && t.wf() && t.matches(data@),
                Err(e) => e == CodecError::EmptyInput && data@.len() == 0,
            },
    {
        if data.len() == 0 {
            return Err(CodecError::EmptyInput);
        }
        let s = Ghost(data@);

        let mut counts: Vec<usize> = Vec::new();
        let mut b: usize = 0;
        while b < 256
            invariant
                counts@.len() == b,
                b <= 256,
                forall|c: int| 0 <= c < b ==> counts@[c] == 0,
            decreases 256 - b,
        {
            counts.push(0);
            b += 1;
        }

        let mut i: usize = 0;
        proof {
            assert(s@.take(0) =~= Seq::<u8>::empty());
        }
        while i < data.len()
            invariant
                s@ == data@,
                counts@.len() == 256,
                i <= data.len(),
                forall|c: u8| #[trigger] counts@[c as int] == occ(s@.take(i as int), c),
            decreases data.len() - i,
        {
            let sym = data[i] as usize;
            let cur = counts[sym];
            proof {
                lemma_occ_le_len(s@.take(i as int), data@[i as int]);
            }
            counts.set(sym, cur + 1);
            proof {
                assert(s@.take(i as int + 1) =~= s@.take(i as int).push(s@[i as int]));
                assert forall|c: u8| #[trigger] counts@[c as int] == occ(
                    s@.take(i as int + 1),
                    c,
                ) by {
                    lemma_occ_push(s@.take(i as int), s@[i as int], c);
                }
            }
            i += 1;
        }
        proof {
            assert(s@.take(data@.len() as int) =~= s@);
        }

        let mut entries: Vec<TableEntry> = Vec::new();
        let mut acc: u128 = 0;
        let mut b: usize = 0;
        while b < 256
            invariant
                s@ == data@,
                s@.len() <= usize::MAX,
                counts@.len() == 256,
                b <= 256,
                forall|c: u8| #[trigger] counts@[c as int] == occ(s@, c),
                entries@ =~= spec_entries(s@, b as int),
                acc == cum(s@, b as int) * (CONTRACT as nat),
                acc <= s@.len() * (CONTRACT as int),
            decreases 256 - b,
        {
            let c = counts[b];
            proof {
                assert(counts@[b as int] == occ(s@, b as u8));
                lemma_cum_le_len(s@, b as int + 1);
            }
            if c > 0 {
                let lo = acc;
                acc = acc + (c as u128) * (CONTRACT as u128);
                entries.push(TableEntry { sym: b as u8, lo, hi: acc });
            }
            b += 1;
        }

        let t = Table { total: data.len(), entries };
        proof {
            lemma_entries_props(s@, 256);
            lemma_cum_total(s@);
            assert forall|j: int| 0 <= j < t.entries_seq().len() implies (#[trigger] t.entries_seq()[j]).lo
                <= t.entries_seq()[j].hi && t.entries_seq()[j].hi <= t.total_spec() * (
            CONTRACT as int) by {
                let e = t.entries_seq()[j];
                lemma_cum_le_len(s@, e.sym as int);
                lemma_cum_le_len(s@, e.sym as int + 1);
                crate::freq::lemma_cum_monotonic(s@, e.sym as int, e.sym as int + 1);
            }
        }
        Ok(t)
    }
}

} // verus!
