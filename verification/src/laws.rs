//! General laws of the counting layer, stated and proved once for every
//! strategy.
//!
//! Each law speaks over the same models the containers' contracts use: the
//! multiset of observed symbols and the frequency listing drawn from it.

use crate::histogram::is_frequency_listing;
use crate::histogram::lemma_repeated;
use crate::histogram::pair_count_sum;
use crate::histogram::repeated;
use vstd::multiset::Multiset;
use vstd::prelude::*;

verus! {

broadcast use {vstd::multiset::group_multiset_properties, vstd::seq_lib::group_to_multiset_ensures};

/// The number of times `symbol` occurs in `seq`.
pub open spec fn occurrences<S>(seq: Seq<S>, symbol: S) -> nat
    decreases seq.len(),
{
    if seq.len() == 0 {
        0
    } else {
        occurrences(seq.drop_last(), symbol) + if seq.last() == symbol {
            1nat
        } else {
            0nat
        }
    }
}

/// Counting a sequence records, for every symbol, exactly the number of
/// its occurrences in that sequence.
pub proof fn lemma_count_is_occurrences<S>(seq: Seq<S>, symbol: S)
    ensures
        seq.to_multiset().count(symbol) == occurrences(seq, symbol),
    decreases seq.len(),
{
    if seq.len() == 0 {
        assert(seq.to_multiset().len() == seq.len());
        assert(seq.to_multiset().count(symbol) <= seq.to_multiset().len());
    } else {
        lemma_count_is_occurrences(seq.drop_last(), symbol);
        assert(seq =~= seq.drop_last().push(seq.last()));
        assert(seq.drop_last().push(seq.last()).to_multiset() =~= seq.drop_last().to_multiset()
            .insert(seq.last()));
    }
}

/// Counting a sequence observes exactly as many symbols as the sequence
/// holds: the container's total is the sequence's length.
pub proof fn lemma_total_is_sequence_length<S>(seq: Seq<S>)
    ensures
        seq.to_multiset().len() == seq.len(),
{
}

/// The counts of a frequency listing sum to the size of the multiset it
/// lists; with the two lemmas above, the counts a container yields for a
/// sequence sum to its total, which is the sequence's length.
pub proof fn lemma_frequency_listing_sum<S>(r: Seq<(S, usize)>, m: Multiset<S>)
    requires
        is_frequency_listing(r, m),
    ensures
        pair_count_sum(r) == m.len(),
    decreases r.len(),
{
    if r.len() == 0 {
        assert forall|t: S| m.count(t) == 0 by {
            if m.count(t) > 0 {
                let i = choose|i: int| 0 <= i < r.len() && (#[trigger] r[i]).0 == t;
            }
        }
        assert(m =~= Multiset::<S>::empty());
    } else {
        let k = r.len() - 1;
        let s = r[k].0;
        let c = r[k].1;
        let rem = repeated(s, c as nat);
        lemma_repeated(s, c as nat);
        assert(rem.subset_of(m));
        let m2 = m.sub(rem);
        assert(m2.len() == m.len() - c);
        assert forall|i: int|
            0 <= i < r.drop_last().len() implies (#[trigger] r.drop_last()[i]).1 == m2.count(
            r.drop_last()[i].0,
        ) && r.drop_last()[i].1 > 0 by {
            assert(r.drop_last()[i] == r[i]);
            assert(r[i].0 != s);
        }
        assert forall|t: S| m2.count(t) > 0 implies exists|i: int|
            0 <= i < r.drop_last().len() && (#[trigger] r.drop_last()[i]).0 == t by {
            assert(m.count(t) > 0);
            let i = choose|i: int| 0 <= i < r.len() && (#[trigger] r[i]).0 == t;
            assert(t != s);
            assert(i != k);
            assert(r.drop_last()[i] == r[i]);
        }
        lemma_frequency_listing_sum(r.drop_last(), m2);
    }
}

proof fn lemma_occurrences_constant<S>(seq: Seq<S>)
    requires
        seq.len() > 0,
        forall|i: int| 0 <= i < seq.len() ==> #[trigger] seq[i] == seq[0],
    ensures
        occurrences(seq, seq[0]) == seq.len(),
    decreases seq.len(),
{
    assert(seq.last() == seq[seq.len() - 1]);
    if seq.len() > 1 {
        assert(seq.drop_last()[0] == seq[0]);
        assert forall|i: int|
            0 <= i < seq.drop_last().len() implies #[trigger] seq.drop_last()[i]
            == seq.drop_last()[0] by {
            assert(seq.drop_last()[i] == seq[i]);
        }
        lemma_occurrences_constant(seq.drop_last());
    } else {
        assert(occurrences(seq.drop_last(), seq[0]) == 0);
    }
}

/// A sequence holding exactly one distinct symbol yields exactly one
/// frequency pair, whose count is the whole sequence's length — the
/// degenerate distribution whose sole probability is one.
pub proof fn lemma_single_symbol_listing<S>(seq: Seq<S>, r: Seq<(S, usize)>)
    requires
        seq.len() > 0,
        forall|i: int| 0 <= i < seq.len() ==> #[trigger] seq[i] == seq[0],
        is_frequency_listing(r, seq.to_multiset()),
    ensures
        r.len() == 1,
        r[0].0 == seq[0],
        r[0].1 == seq.len(),
{
    let m = seq.to_multiset();
    assert(seq.contains(seq[0]));
    assert(m.count(seq[0]) > 0);
    assert forall|i: int| 0 <= i < r.len() implies (#[trigger] r[i]).0 == seq[0] by {
        assert(r[i].1 == m.count(r[i].0) && r[i].1 > 0);
        assert(seq.contains(r[i].0));
        let j = choose|j: int| 0 <= j < seq.len() && seq[j] == r[i].0;
    }
    let i0 = choose|i: int| 0 <= i < r.len() && (#[trigger] r[i]).0 == seq[0];
    if r.len() >= 2 {
        assert(r[0].0 != r[1].0);
    }
    lemma_count_is_occurrences(seq, seq[0]);
    lemma_occurrences_constant(seq);
}

} // verus!
