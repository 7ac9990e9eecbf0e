//! The sequence-to-distribution adapter and the distribution wrapper.
//!
//! `shannon` consumes a finite sequence of symbols into a fresh frequency
//! container in one pass, one `update` per symbol in encounter order, and
//! wraps the populated container in a [`Frequencies`] value.  The wrapper
//! exposes the total count and the non-zero `(symbol, count)` pairs; each
//! pair's probability is its count divided by the total, and the Shannon
//! entropy is the negated sum of `p * log2(p)` over those probabilities —
//! derivations a caller builds on the listing this wrapper yields.

use crate::histogram::Histogram;
use crate::histogram::is_frequency_listing;
use core::marker::PhantomData;
use vstd::multiset::Multiset;
use vstd::prelude::*;

verus! {

broadcast use vstd::seq_lib::group_to_multiset_ensures;

/// A finalized distribution: the populated frequency container together
/// with the total it was filled to.
pub struct Frequencies<T, S> where T: Histogram<S> {
    /// The populated container, kept accessible for direct post-hoc
    /// symbol lookups.
    pub histogram: T,
    /// Ties the symbol type to the wrapper; carries no data.
    pub marker: PhantomData<S>,
}

impl<T, S> Frequencies<T, S> where T: Histogram<S> {
    /// The multiset of symbols the underlying container observed.
    pub open spec fn symbols(&self) -> Multiset<S> {
        self.histogram.symbols()
    }

    /// The total number of symbols observed: the length of the sequence
    /// this distribution was built from.
    pub fn total(&self) -> (r: usize)
        ensures
            r == self.symbols().len(),
    {
        self.histogram.total()
    }

    /// Consumes the distribution and yields every non-zero
    /// `(symbol, count)` pair exactly once; each pair's probability is its
    /// count divided by the total.
    pub fn into_frequencies(self) -> (r: Vec<(S, usize)>)
        ensures
            is_frequency_listing(r@, self.symbols()),
    {
        self.histogram.frequencies()
    }
}

/// Equips a finite sequence of symbols with the one-pass counting adapter.
pub trait FrequencyIteratorExt<S>: Sized {
    /// The symbols the sequence yields, in order.
    spec fn sym_seq(&self) -> Seq<S>;

    /// Consumes the sequence into a fresh, empty container of strategy
    /// `T`, calling `update` once per symbol in encounter order: no symbol
    /// is skipped, reordered, or deduplicated.
    fn shannon<T: Histogram<S>>(self) -> (r: Frequencies<T, S>)
        ensures
            r.symbols() == self.sym_seq().to_multiset(),
    ;
}

impl<S: Copy> FrequencyIteratorExt<S> for Vec<S> {
    open spec fn sym_seq(&self) -> Seq<S> {
        self@
    }

    fn shannon<T: Histogram<S>>(self) -> (r: Frequencies<T, S>) {
        let mut histogram = T::empty();
        let n = self.len();
        let mut i: usize = 0;
        while i < n
            invariant
                n == self@.len(),
                i <= n,
                histogram.symbols() == self@.take(i as int).to_multiset(),
            decreases n - i,
        {
            proof {
                assert(self@.take(i as int).to_multiset().len() == i);
                assert(self@.take(i as int + 1) =~= self@.take(i as int).push(self@[i as int]));
            }
            histogram.update(self[i]);
            i += 1;
        }
        proof {
            assert(self@.take(n as int) =~= self@);
        }
        Frequencies { histogram, marker: PhantomData }
    }
}

} // verus!
