//! The per-block histogram: for each account, how many of its storage slots
//! changed. The first count seen for an account is the one kept.

use vstd::prelude::*;
use crate::account::Address;

verus! {

/// The storage diff of one account within a committed chain.
#[derive(Clone, Copy, Debug)]
pub struct AccountDiff {
    pub account: Address,
    pub changed_slots: usize,
}

/// The (account, count) pairs of a diff sequence, in order.
pub open spec fn diff_pairs(diffs: Seq<AccountDiff>) -> Seq<(Seq<u8>, usize)> {
    diffs.map_values(|d: AccountDiff| (d.account@, d.changed_slots))
}

/// Whether some row of `rows` is keyed by `k`.
pub open spec fn has_key(rows: Seq<(Seq<u8>, usize)>, k: Seq<u8>) -> bool {
    exists|i: int| 0 <= i < rows.len() && (#[trigger] rows[i]).0 == k
}

/// No two rows share a key.
pub open spec fn keys_unique(rows: Seq<(Seq<u8>, usize)>) -> bool {
    forall|i: int, j: int|
        0 <= i < rows.len() && 0 <= j < rows.len() && i != j ==> (#[trigger] rows[i]).0
            != (#[trigger] rows[j]).0
}

/// The map that a sequence of rows describes.
pub open spec fn rows_map(rows: Seq<(Seq<u8>, usize)>) -> Map<Seq<u8>, usize>
    decreases rows.len(),
{
    if rows.len() == 0 {
        Map::empty()
    } else {
        rows_map(rows.drop_last()).insert(rows.last().0, rows.last().1)
    }
}

/// Reduction of a pair sequence, first write wins: a pair whose account is
/// already present is dropped.
pub open spec fn histogram_of(pairs: Seq<(Seq<u8>, usize)>) -> Map<Seq<u8>, usize>
    decreases pairs.len(),
{
    if pairs.len() == 0 {
        Map::empty()
    } else {
        let prev = histogram_of(pairs.drop_last());
        if prev.contains_key(pairs.last().0) {
            prev
        } else {
            prev.insert(pairs.last().0, pairs.last().1)
        }
    }
}

/// The rows of the histogram of `pairs`, in order of each account's first
/// appearance.
pub open spec fn first_write_rows(pairs: Seq<(Seq<u8>, usize)>) -> Seq<(Seq<u8>, usize)>
    decreases pairs.len(),
{
    if pairs.len() == 0 {
        seq![]
    } else {
        let prev = first_write_rows(pairs.drop_last());
        if has_key(prev, pairs.last().0) {
            prev
        } else {
            prev.push(pairs.last())
        }
    }
}

pub proof fn lemma_rows_map_keys(rows: Seq<(Seq<u8>, usize)>, k: Seq<u8>)
    ensures
        rows_map(rows).contains_key(k) == has_key(rows, k),
    decreases rows.len(),
{
    if rows.len() > 0 {
        let init = rows.drop_last();
        lemma_rows_map_keys(init, k);
        if has_key(init, k) {
            let i = choose|i: int| 0 <= i < init.len() && (#[trigger] init[i]).0 == k;
            assert(rows[i] == init[i]);
        }
        if has_key(rows, k) && k != rows.last().0 {
            let i = choose|i: int| 0 <= i < rows.len() && (#[trigger] rows[i]).0 == k;
            assert(init[i] == rows[i]);
        }
        if k == rows.last().0 {
            assert(rows[rows.len() - 1].0 == k);
        }
    }
}

/// The rows of a first-write histogram have unique keys and describe it.
pub proof fn lemma_first_write_rows(pairs: Seq<(Seq<u8>, usize)>)
    ensures
        keys_unique(first_write_rows(pairs)),
        rows_map(first_write_rows(pairs)) == histogram_of(pairs),
    decreases pairs.len(),
{
    if pairs.len() > 0 {
        let prev = first_write_rows(pairs.drop_last());
        lemma_first_write_rows(pairs.drop_last());
        lemma_rows_map_keys(prev, pairs.last().0);
        if !has_key(prev, pairs.last().0) {
            let rows = prev.push(pairs.last());
            assert(rows.drop_last() =~= prev);
            assert forall|i: int, j: int|
                0 <= i < rows.len() && 0 <= j < rows.len() && i != j implies (#[trigger] rows[i]).0
                != (#[trigger] rows[j]).0 by {
                if i == rows.len() - 1 {
                    assert(prev[j] == rows[j]);
                } else if j == rows.len() - 1 {
                    assert(prev[i] == rows[i]);
                }
            }
        }
    }
}

/// First write wins: the count recorded for an account is the one of its
/// first pair in the sequence; later pairs for it change nothing.
pub proof fn lemma_first_write_wins(pairs: Seq<(Seq<u8>, usize)>, i: int)
    requires
        0 <= i < pairs.len(),
        forall|j: int| 0 <= j < i ==> (#[trigger] pairs[j]).0 != pairs[i].0,
    ensures
        histogram_of(pairs).contains_key(pairs[i].0),
        histogram_of(pairs)[pairs[i].0] == pairs[i].1,
    decreases pairs.len(),
{
    let k = pairs[i].0;
    if i == pairs.len() - 1 {
        assert(!histogram_of(pairs.drop_last()).contains_key(k)) by {
            lemma_not_yet_recorded(pairs.drop_last(), k);
        }
    } else {
        let init = pairs.drop_last();
        assert(init[i] == pairs[i]);
        assert forall|j: int| 0 <= j < i implies (#[trigger] init[j]).0 != init[i].0 by {
            assert(init[j] == pairs[j]);
        }
        lemma_first_write_wins(init, i);
    }
}

/// An account that no pair mentions is not in the histogram.
pub proof fn lemma_not_yet_recorded(pairs: Seq<(Seq<u8>, usize)>, k: Seq<u8>)
    requires
        forall|j: int| 0 <= j < pairs.len() ==> (#[trigger] pairs[j]).0 != k,
    ensures
        !histogram_of(pairs).contains_key(k),
    decreases pairs.len(),
{
    if pairs.len() > 0 {
        let init = pairs.drop_last();
        assert forall|j: int| 0 <= j < init.len() implies (#[trigger] init[j]).0 != k by {
            assert(init[j] == pairs[j]);
        }
        lemma_not_yet_recorded(init, k);
        assert(pairs[pairs.len() - 1].0 != k);
    }
}

/// A histogram of storage-slot changes: one row per account, in order of
/// insertion.
#[derive(Debug)]
pub struct Histogram {
    rows: Vec<(Address, usize)>,
}

impl View for Histogram {
    type V = Map<Seq<u8>, usize>;

    open spec fn view(&self) -> Map<Seq<u8>, usize> {
        rows_map(self.rows())
    }
}

impl Histogram {
    /// The rows, in order, as (address bytes, count).
    pub closed spec fn rows(&self) -> Seq<(Seq<u8>, usize)> {
        self.rows@.map_values(|r: (Address, usize)| (r.0@, r.1))
    }

    /// Each account appears in at most one row.
    pub open spec fn wf(&self) -> bool {
        keys_unique(self.rows())
    }

    /// Every row is keyed by a 20-byte address.
    pub proof fn lemma_rows_are_addresses(&self)
        ensures
            forall|i: int| 0 <= i < self.rows().len() ==> (#[trigger] self.rows()[i]).0.len() == 20,
    {
    }

    /// An empty histogram.
    pub fn new() -> (h: Histogram)
        ensures
            h.wf(),
            h.rows() == Seq::<(Seq<u8>, usize)>::empty(),
            h@ == Map::<Seq<u8>, usize>::empty(),
    {
        let h = Histogram { rows: Vec::new() };
        assert(h.rows() =~= Seq::<(Seq<u8>, usize)>::empty());
        h
    }

    /// The number of accounts recorded.
    pub fn len(&self) -> (n: usize)
        ensures
            n == self.rows().len(),
    {
        self.rows.len()
    }

    /// The row at `i`, for `i < len()`.
    pub fn row(&self, i: usize) -> (r: (Address, usize))
        requires
            i < self.rows().len(),
        ensures
            (r.0@, r.1) == self.rows()[i as int],
    {
        self.rows[i]
    }

    /// Index of the row keyed by `account`, if there is one.
    fn position(&self, account: &Address) -> (r: Option<usize>)
        ensures
            match r {
                Some(i) => i < self.rows().len() && self.rows()[i as int].0 == account@,
                None => !has_key(self.rows(), account@),
            },
    {
        let mut i: usize = 0;
        while i < self.rows.len()
            invariant
                i <= self.rows@.len(),
                forall|j: int| 0 <= j < i ==> (#[trigger] self.rows()[j]).0 != account@,
            decreases self.rows@.len() - i,
        {
            if self.rows[i].0.same_as(account) {
                return Some(i);
            }
            i = i + 1;
        }
        None
    }

    /// The count recorded for `account`, if any.
    pub fn get(&self, account: &Address) -> (r: Option<usize>)
        requires
            self.wf(),
        ensures
            r == (if self@.contains_key(account@) {
                Some(self@[account@])
            } else {
                None::<usize>
            }),
    {
        proof {
            lemma_rows_map_keys(self.rows(), account@);
        }
        match self.position(account) {
            Some(i) => {
                proof {
                    lemma_rows_map_value(self.rows(), i as int);
                }
                Some(self.rows[i].1)
            },
            None => None,
        }
    }

    /// Records `count` for `account` unless the account is already present,
    /// in which case the stored count is kept.
    pub fn record(&mut self, account: &Address, count: usize)
        requires
            old(self).wf(),
        ensures
            final(self).wf(),
            final(self).rows() == (if has_key(old(self).rows(), account@) {
                old(self).rows()
            } else {
                old(self).rows().push((account@, count))
            }),
            final(self)@ == (if old(self)@.contains_key(account@) {
                old(self)@
            } else {
                old(self)@.insert(account@, count)
            }),
    {
        proof {
            lemma_rows_map_keys(old(self).rows(), account@);
        }
        match self.position(account) {
            Some(_) => {},
            None => {
                self.rows.push((*account, count));
                let ghost new_rows = old(self).rows().push((account@, count));
                assert(self.rows() =~= new_rows);
                assert(new_rows.drop_last() =~= old(self).rows());
                assert forall|i: int, j: int|
                    0 <= i < new_rows.len() && 0 <= j < new_rows.len() && i != j implies (
                    #[trigger] new_rows[i]).0 != (#[trigger] new_rows[j]).0 by {
                    if i == new_rows.len() - 1 {
                        assert(old(self).rows()[j] == new_rows[j]);
                    } else if j == new_rows.len() - 1 {
                        assert(old(self).rows()[i] == new_rows[i]);
                    }
                }
            },
        }
    }
}

/// In rows with unique keys, the map holds each row's own count.
pub proof fn lemma_rows_map_value(rows: Seq<(Seq<u8>, usize)>, i: int)
    requires
        keys_unique(rows),
        0 <= i < rows.len(),
    ensures
        rows_map(rows).contains_key(rows[i].0),
        rows_map(rows)[rows[i].0] == rows[i].1,
    decreases rows.len(),
{
    if i < rows.len() - 1 {
        let init = rows.drop_last();
        assert(init[i] == rows[i]);
        assert forall|a: int, b: int|
            0 <= a < init.len() && 0 <= b < init.len() && a != b implies (#[trigger] init[a]).0
            != (#[trigger] init[b]).0 by {
            assert(init[a] == rows[a] && init[b] == rows[b]);
        }
        lemma_rows_map_value(init, i);
        assert(rows[i].0 != rows[rows.len() - 1].0);
    }
}

/// Builds the histogram of a diff sequence: each account with the slot count
/// of its first diff.
pub fn build_histogram(diffs: &Vec<AccountDiff>) -> (h: Histogram)
    ensures
        h.wf(),
        h.rows() == first_write_rows(diff_pairs(diffs@)),
        h@ == histogram_of(diff_pairs(diffs@)),
{
    let mut h = Histogram::new();
    let mut i: usize = 0;
    while i < diffs.len()
        invariant
            i <= diffs@.len(),
            h.wf(),
            h.rows() == first_write_rows(diff_pairs(diffs@.take(i as int))),
        decreases diffs@.len() - i,
    {
        let d = diffs[i];
        h.record(&d.account, d.changed_slots);
        assert(diff_pairs(diffs@.take(i as int + 1)).drop_last() =~= diff_pairs(
            diffs@.take(i as int),
        ));
        i = i + 1;
    }
    assert(diffs@.take(diffs@.len() as int) =~= diffs@);
    proof {
        lemma_first_write_rows(diff_pairs(diffs@));
    }
    h
}

} // verus!
