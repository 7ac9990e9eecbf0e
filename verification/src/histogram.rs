//! The frequency-container contract shared by every counting strategy.
//!
//! A histogram is modelled as the multiset of symbols it has observed: each
//! `update` inserts one occurrence, the count of a symbol is its
//! multiplicity, and the total is the multiset's size.  Consuming the
//! container yields a *frequency listing*: the non-zero `(symbol, count)`
//! pairs, each symbol at most once, nothing observed left out.

use vstd::multiset::Multiset;
use vstd::prelude::*;

verus! {

broadcast use vstd::multiset::group_multiset_properties;

/// Whether `r` lists exactly the non-zero counts of the multiset `m`:
/// every pair carries a symbol's true, positive count, every observed
/// symbol appears, and no symbol appears twice.
pub open spec fn is_frequency_listing<S>(r: Seq<(S, usize)>, m: Multiset<S>) -> bool {
    &&& forall|i: int|
        0 <= i < r.len() ==> (#[trigger] r[i]).1 == m.count(r[i].0) && r[i].1 > 0
    &&& forall|s: S|
        m.count(s) > 0 ==> exists|i: int| 0 <= i < r.len() && (#[trigger] r[i]).0 == s
    &&& forall|i: int, j: int|
        0 <= i < j < r.len() ==> (#[trigger] r[i]).0 != (#[trigger] r[j]).0
}

/// The sum of the counts carried by a listing's pairs.
pub open spec fn pair_count_sum<S>(r: Seq<(S, usize)>) -> int
    decreases r.len(),
{
    if r.len() == 0 {
        0
    } else {
        pair_count_sum(r.drop_last()) + r.last().1
    }
}

/// The multiset holding `n` copies of `symbol` and nothing else.
pub(crate) open spec fn repeated<S>(symbol: S, n: nat) -> Multiset<S>
    decreases n,
{
    if n == 0 {
        Multiset::empty()
    } else {
        repeated(symbol, (n - 1) as nat).insert(symbol)
    }
}

pub(crate) proof fn lemma_repeated<S>(symbol: S, n: nat)
    ensures
        repeated(symbol, n).count(symbol) == n,
        forall|t: S| t != symbol ==> repeated(symbol, n).count(t) == 0,
        repeated(symbol, n).len() == n,
    decreases n,
{
    if n > 0 {
        lemma_repeated(symbol, (n - 1) as nat);
    }
}

pub(crate) proof fn lemma_pair_sum_take_step<S>(r: Seq<(S, usize)>, i: int)
    requires
        0 <= i < r.len(),
    ensures
        pair_count_sum(r.take(i + 1)) == pair_count_sum(r.take(i)) + r[i].1,
{
    assert(r.take(i + 1).drop_last() =~= r.take(i));
    assert(r.take(i + 1).last() == r[i]);
}

pub(crate) proof fn lemma_pair_sum_take_le<S>(r: Seq<(S, usize)>, i: int)
    requires
        0 <= i <= r.len(),
    ensures
        pair_count_sum(r.take(i)) <= pair_count_sum(r),
    decreases r.len() - i,
{
    if i == r.len() {
        assert(r.take(i) =~= r);
    } else {
        lemma_pair_sum_take_step(r, i);
        lemma_pair_sum_take_le(r, i + 1);
    }
}

pub(crate) proof fn lemma_pair_sum_update<S>(r: Seq<(S, usize)>, i: int, p: (S, usize))
    requires
        0 <= i < r.len(),
    ensures
        pair_count_sum(r.update(i, p)) == pair_count_sum(r) + p.1 - r[i].1,
    decreases r.len(),
{
    let t = r.update(i, p);
    if i == r.len() - 1 {
        assert(t.drop_last() =~= r.drop_last());
    } else {
        assert(t.drop_last() =~= r.drop_last().update(i, p));
        lemma_pair_sum_update(r.drop_last(), i, p);
    }
}

pub(crate) proof fn lemma_pair_sum_insert<S>(r: Seq<(S, usize)>, i: int, p: (S, usize))
    requires
        0 <= i <= r.len(),
    ensures
        pair_count_sum(r.insert(i, p)) == pair_count_sum(r) + p.1,
    decreases r.len(),
{
    let t = r.insert(i, p);
    r.insert_ensures(i, p);
    if i == r.len() {
        assert(t.drop_last() =~= r);
    } else {
        assert(t.drop_last() =~= r.drop_last().insert(i, p));
        assert(t.last() == r.last());
        lemma_pair_sum_insert(r.drop_last(), i, p);
    }
}

/// A frequency container: maps each symbol of a sequence to the number of
/// times it occurred.  Implementations differ only in how the counts are
/// stored and in which symbol types they accept.
pub trait Histogram<S>: Sized {
    /// The multiset of symbols observed so far; a symbol's count is its
    /// multiplicity here.
    spec fn symbols(&self) -> Multiset<S>;

    /// A container that has observed nothing.
    fn empty() -> (h: Self)
        ensures
            h.symbols() == Multiset::<S>::empty(),
    ;

    /// Records one occurrence of `symbol`.
    fn update(&mut self, symbol: S)
        requires
            old(self).symbols().len() < usize::MAX,
        ensures
            final(self).symbols() == old(self).symbols().insert(symbol),
    ;

    /// The count recorded for `symbol`.  Any symbol observed at least once
    /// yields its count; a sparse strategy answers `None` for an unseen
    /// symbol, while the dense strategy answers the stored zero.
    fn frequency_of(&self, symbol: S) -> (r: Option<usize>)
        ensures
            match r {
                Some(c) => c == self.symbols().count(symbol),
                None => self.symbols().count(symbol) == 0,
            },
            self.symbols().count(symbol) > 0 ==> r is Some,
    ;

    /// Consumes the container and yields every non-zero `(symbol, count)`
    /// pair exactly once.
    fn frequencies(self) -> (r: Vec<(S, usize)>)
        ensures
            is_frequency_listing(r@, self.symbols()),
    ;

    /// The number of symbols observed, i.e. the sum of all counts.
    fn total(&self) -> (r: usize)
        ensures
            r == self.symbols().len(),
    ;
}

} // verus!
