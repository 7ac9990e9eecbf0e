//! The sparse counting strategies: storage only for observed symbols.
//!
//! Both strategies keep one `(symbol, count)` entry per distinct observed
//! symbol.  [`HashMapHistogram`] accepts any symbol with an equality test
//! and promises nothing about entry order; [`BTreeMapHistogram`] requires a
//! total order on the symbols and keeps its entries sorted by symbol
//! value, so the listing it yields is deterministic.

use crate::histogram::Histogram;
use crate::histogram::lemma_pair_sum_insert;
use crate::histogram::lemma_pair_sum_take_le;
use crate::histogram::lemma_pair_sum_take_step;
use crate::histogram::lemma_pair_sum_update;
use crate::histogram::lemma_repeated;
use crate::histogram::pair_count_sum;
use crate::histogram::repeated;
use crate::symbol::OrderedSymbol;
use crate::symbol::Symbol;
use vstd::multiset::Multiset;
use vstd::prelude::*;

verus! {

broadcast use vstd::multiset::group_multiset_properties;

/// Whether the pairs of `r` come in ascending symbol order.
pub open spec fn symbols_ascending<S: OrderedSymbol>(r: Seq<(S, usize)>) -> bool {
    forall|i: int, j: int| 0 <= i < j < r.len() ==> (#[trigger] r[i]).0.le((#[trigger] r[j]).0)
}

/// The multiset counted by a sequence of entries: each `(symbol, count)`
/// pair contributes `count` copies of its symbol.
spec fn pairs_ms<S>(r: Seq<(S, usize)>) -> Multiset<S>
    decreases r.len(),
{
    if r.len() == 0 {
        Multiset::empty()
    } else {
        pairs_ms(r.drop_last()).add(repeated(r.last().0, r.last().1 as nat))
    }
}

proof fn lemma_pairs_ms_count_absent<S>(r: Seq<(S, usize)>, t: S)
    requires
        forall|j: int| 0 <= j < r.len() ==> (#[trigger] r[j]).0 != t,
    ensures
        pairs_ms(r).count(t) == 0,
    decreases r.len(),
{
    if r.len() > 0 {
        lemma_pairs_ms_count_absent(r.drop_last(), t);
        lemma_repeated(r.last().0, r.last().1 as nat);
    }
}

proof fn lemma_pairs_ms_count_at<S>(r: Seq<(S, usize)>, i: int)
    requires
        0 <= i < r.len(),
        forall|j: int| 0 <= j < r.len() && j != i ==> (#[trigger] r[j]).0 != r[i].0,
    ensures
        pairs_ms(r).count(r[i].0) == r[i].1,
    decreases r.len(),
{
    lemma_repeated(r.last().0, r.last().1 as nat);
    if i == r.len() - 1 {
        lemma_pairs_ms_count_absent(r.drop_last(), r[i].0);
    } else {
        lemma_pairs_ms_count_at(r.drop_last(), i);
    }
}

proof fn lemma_pairs_ms_len<S>(r: Seq<(S, usize)>)
    ensures
        pairs_ms(r).len() == pair_count_sum(r),
    decreases r.len(),
{
    if r.len() > 0 {
        lemma_pairs_ms_len(r.drop_last());
        lemma_repeated(r.last().0, r.last().1 as nat);
    }
}

/// Distinct symbols, positive counts, and a total that fits the count type:
/// what every sparse entry table maintains.
spec fn entries_wf<S>(r: Seq<(S, usize)>) -> bool {
    &&& forall|i: int, j: int| 0 <= i < j < r.len() ==> (#[trigger] r[i]).0 != (#[trigger] r[j]).0
    &&& forall|i: int| 0 <= i < r.len() ==> (#[trigger] r[i]).1 >= 1
    &&& pair_count_sum(r) <= usize::MAX
}

/// After observing one more `symbol`, the entry table counts the multiset
/// `before.insert(symbol)`; shared by both sparse strategies.
proof fn lemma_pairs_ms_bump<S>(e0: Seq<(S, usize)>, e1: Seq<(S, usize)>, symbol: S)
    requires
        forall|i: int, j: int| 0 <= i < j < e0.len() ==> (#[trigger] e0[i]).0 != (#[trigger] e0[j]).0,
        forall|i: int, j: int| 0 <= i < j < e1.len() ==> (#[trigger] e1[i]).0 != (#[trigger] e1[j]).0,
        // every symbol of e0 keeps its count in e1
        forall|i: int|
            0 <= i < e0.len() && e0[i].0 != symbol ==> exists|k: int|
                0 <= k < e1.len() && #[trigger] e1[k] == (e0[i].0, e0[i].1),
        // e1 adds nothing else
        forall|k: int|
            0 <= k < e1.len() && e1[k].0 != symbol ==> exists|i: int|
                0 <= i < e0.len() && #[trigger] e0[i] == (e1[k].0, e1[k].1),
        // and carries symbol's count, one higher than before
        pairs_ms(e1).count(symbol) == pairs_ms(e0).count(symbol) + 1,
    ensures
        pairs_ms(e1) =~= pairs_ms(e0).insert(symbol),
{
    assert forall|t: S| pairs_ms(e1).count(t) == pairs_ms(e0).insert(symbol).count(t) by {
        if t != symbol {
            if exists|k: int| 0 <= k < e1.len() && (#[trigger] e1[k]).0 == t {
                let k = choose|k: int| 0 <= k < e1.len() && (#[trigger] e1[k]).0 == t;
                let i = choose|i: int| 0 <= i < e0.len() && #[trigger] e0[i] == (e1[k].0, e1[k].1);
                lemma_pairs_ms_count_at(e1, k);
                lemma_pairs_ms_count_at(e0, i);
            } else {
                lemma_pairs_ms_count_absent(e1, t);
                if exists|i: int| 0 <= i < e0.len() && (#[trigger] e0[i]).0 == t {
                    let i = choose|i: int| 0 <= i < e0.len() && (#[trigger] e0[i]).0 == t;
                    let k = choose|k: int|
                        0 <= k < e1.len() && #[trigger] e1[k] == (e0[i].0, e0[i].1);
                    assert(false);
                } else {
                    lemma_pairs_ms_count_absent(e0, t);
                }
            }
        }
    }
}

/// Finds the entry holding `symbol`, if any, by testing each key.
fn locate_eq<S: Symbol>(entries: &Vec<(S, usize)>, symbol: S) -> (r: Option<usize>)
    ensures
        match r {
            Some(i) => i < entries@.len() && entries@[i as int].0 == symbol,
            None => forall|k: int| 0 <= k < entries@.len() ==> (#[trigger] entries@[k]).0 != symbol,
        },
{
    let n = entries.len();
    let mut i: usize = 0;
    while i < n
        invariant
            n == entries@.len(),
            i <= n,
            forall|k: int| 0 <= k < i ==> (#[trigger] entries@[k]).0 != symbol,
        decreases n - i,
    {
        if entries[i].0.eq_symbol(&symbol) {
            return Some(i);
        }
        i += 1;
    }
    None
}

/// Sums the counts of every entry.
fn sum_counts<S: Copy>(entries: &Vec<(S, usize)>) -> (r: usize)
    requires
        pair_count_sum(entries@) <= usize::MAX,
    ensures
        r == pair_count_sum(entries@),
{
    let n = entries.len();
    let mut running: usize = 0;
    let mut i: usize = 0;
    while i < n
        invariant
            n == entries@.len(),
            i <= n,
            pair_count_sum(entries@) <= usize::MAX,
            running == pair_count_sum(entries@.take(i as int)),
        decreases n - i,
    {
        proof {
            lemma_pair_sum_take_step(entries@, i as int);
            lemma_pair_sum_take_le(entries@, i as int + 1);
        }
        running = running + entries[i].1;
        i += 1;
    }
    proof {
        assert(entries@.take(n as int) =~= entries@);
    }
    running
}

/// A sparse histogram for symbols that carry an equality test; entries are
/// stored in first-observation order and no iteration order is promised.
pub struct HashMapHistogram<S> {
    entries: Vec<(S, usize)>,
}

impl<S> HashMapHistogram<S> {
    #[verifier::type_invariant]
    spec fn wf(self) -> bool {
        entries_wf(self.entries@)
    }
}

impl<S: Symbol> Histogram<S> for HashMapHistogram<S> {
    closed spec fn symbols(&self) -> Multiset<S> {
        pairs_ms(self.entries@)
    }

    fn empty() -> (h: Self) {
        let entries: Vec<(S, usize)> = Vec::new();
        proof {
            assert(pairs_ms(entries@) =~= Multiset::<S>::empty());
        }
        HashMapHistogram { entries }
    }

    fn update(&mut self, symbol: S) {
        proof {
            use_type_invariant(&*self);
            lemma_pairs_ms_len(self.entries@);
        }
        let ghost e0 = self.entries@;
        match locate_eq(&self.entries, symbol) {
            Some(i) => {
                let c = self.entries[i].1;
                proof {
                    lemma_pairs_ms_count_at(e0, i as int);
                    assert(pairs_ms(e0).count(symbol) <= pairs_ms(e0).len());
                    assert(c < usize::MAX);
                    lemma_pair_sum_update(e0, i as int, (symbol, (c + 1) as usize));
                }
                vstd::std_specs::core::index_set(&mut self.entries, i, (symbol, c + 1));
                proof {
                    use_type_invariant(&*self);
                    let e1 = self.entries@;
                    lemma_pairs_ms_count_at(e1, i as int);
                    assert forall|j: int|
                        0 <= j < e0.len() && e0[j].0 != symbol implies exists|k: int|
                        0 <= k < e1.len() && #[trigger] e1[k] == (e0[j].0, e0[j].1) by {
                        assert(e1[j] == (e0[j].0, e0[j].1));
                    }
                    assert forall|k: int|
                        0 <= k < e1.len() && e1[k].0 != symbol implies exists|j: int|
                        0 <= j < e0.len() && #[trigger] e0[j] == (e1[k].0, e1[k].1) by {
                        assert(e0[k] == (e1[k].0, e1[k].1));
                    }
                    lemma_pairs_ms_bump(e0, e1, symbol);
                }
            },
            None => {
                proof {
                    lemma_pairs_ms_count_absent(e0, symbol);
                    assert(e0.push((symbol, 1usize)).drop_last() =~= e0);
                }
                let mut entries: Vec<(S, usize)> = Vec::new();
                core::mem::swap(&mut entries, &mut self.entries);
                entries.push((symbol, 1));
                self.entries = entries;
                proof {
                    use_type_invariant(&*self);
                    let e1 = self.entries@;
                    lemma_pairs_ms_count_at(e1, e1.len() - 1);
                    assert forall|j: int|
                        0 <= j < e0.len() && e0[j].0 != symbol implies exists|k: int|
                        0 <= k < e1.len() && #[trigger] e1[k] == (e0[j].0, e0[j].1) by {
                        assert(e1[j] == (e0[j].0, e0[j].1));
                    }
                    assert forall|k: int|
                        0 <= k < e1.len() && e1[k].0 != symbol implies exists|j: int|
                        0 <= j < e0.len() && #[trigger] e0[j] == (e1[k].0, e1[k].1) by {
                        assert(e0[k] == (e1[k].0, e1[k].1));
                    }
                    lemma_pairs_ms_bump(e0, e1, symbol);
                }
            },
        }
    }

    /// A symbol never observed reports "absent", not zero.
    fn frequency_of(&self, symbol: S) -> (r: Option<usize>)
        ensures
            self.symbols().count(symbol) == 0 ==> r is None,
    {
        proof {
            use_type_invariant(self);
        }
        match locate_eq(&self.entries, symbol) {
            Some(i) => {
                proof {
                    lemma_pairs_ms_count_at(self.entries@, i as int);
                }
                Some(self.entries[i].1)
            },
            None => {
                proof {
                    lemma_pairs_ms_count_absent(self.entries@, symbol);
                }
                None
            },
        }
    }

    fn frequencies(self) -> (r: Vec<(S, usize)>) {
        proof {
            use_type_invariant(&self);
            lemma_listing_of_wf_entries(self.entries@);
        }
        let HashMapHistogram { entries } = self;
        entries
    }

    fn total(&self) -> (r: usize) {
        proof {
            use_type_invariant(self);
            lemma_pairs_ms_len(self.entries@);
        }
        sum_counts(&self.entries)
    }
}

impl<S: Symbol> Default for HashMapHistogram<S> {
    /// A fresh container with no entries.
    fn default() -> (h: Self)
        ensures
            h.symbols() == Multiset::<S>::empty(),
    {
        HashMapHistogram::empty()
    }
}

/// A well-formed entry table is a frequency listing of its own multiset.
proof fn lemma_listing_of_wf_entries<S>(r: Seq<(S, usize)>)
    requires
        forall|i: int, j: int| 0 <= i < j < r.len() ==> (#[trigger] r[i]).0 != (#[trigger] r[j]).0,
        forall|i: int| 0 <= i < r.len() ==> (#[trigger] r[i]).1 >= 1,
    ensures
        crate::histogram::is_frequency_listing(r, pairs_ms(r)),
{
    assert forall|i: int| 0 <= i < r.len() implies (#[trigger] r[i]).1 == pairs_ms(r).count(r[i].0)
        && r[i].1 > 0 by {
        lemma_pairs_ms_count_at(r, i);
    }
    assert forall|s: S| pairs_ms(r).count(s) > 0 implies exists|i: int|
        0 <= i < r.len() && (#[trigger] r[i]).0 == s by {
        if forall|i: int| 0 <= i < r.len() ==> (#[trigger] r[i]).0 != s {
            lemma_pairs_ms_count_absent(r, s);
        }
    }
}

/// Raising one entry's count by one observes its symbol once more.
proof fn lemma_entries_increment<S>(e0: Seq<(S, usize)>, i: int, symbol: S)
    requires
        entries_wf(e0),
        0 <= i < e0.len(),
        e0[i].0 == symbol,
        pair_count_sum(e0) < usize::MAX,
    ensures
        e0[i].1 < usize::MAX,
        entries_wf(e0.update(i, (symbol, (e0[i].1 + 1) as usize))),
        pairs_ms(e0.update(i, (symbol, (e0[i].1 + 1) as usize))) =~= pairs_ms(e0).insert(symbol),
{
    lemma_pairs_ms_len(e0);
    lemma_pairs_ms_count_at(e0, i);
    assert(pairs_ms(e0).count(symbol) <= pairs_ms(e0).len());
    let e1 = e0.update(i, (symbol, (e0[i].1 + 1) as usize));
    lemma_pair_sum_update(e0, i, (symbol, (e0[i].1 + 1) as usize));
    lemma_pairs_ms_count_at(e1, i);
    assert forall|j: int|
        0 <= j < e0.len() && e0[j].0 != symbol implies exists|k: int|
        0 <= k < e1.len() && #[trigger] e1[k] == (e0[j].0, e0[j].1) by {
        assert(e1[j] == (e0[j].0, e0[j].1));
    }
    assert forall|k: int|
        0 <= k < e1.len() && e1[k].0 != symbol implies exists|j: int|
        0 <= j < e0.len() && #[trigger] e0[j] == (e1[k].0, e1[k].1) by {
        assert(e0[k] == (e1[k].0, e1[k].1));
    }
    lemma_pairs_ms_bump(e0, e1, symbol);
}

/// Replacing an entry by one with the same symbol keeps the table sorted.
proof fn lemma_ascending_update<S: OrderedSymbol>(e0: Seq<(S, usize)>, i: int, p: (S, usize))
    requires
        symbols_ascending(e0),
        0 <= i < e0.len(),
        p.0 == e0[i].0,
    ensures
        symbols_ascending(e0.update(i, p)),
{
    let e1 = e0.update(i, p);
    assert forall|a: int, b: int| 0 <= a < b < e1.len() implies (#[trigger] e1[a]).0.le(
        (#[trigger] e1[b]).0,
    ) by {
        assert(e0[a].0.le(e0[b].0));
    }
}

/// Inserting a fresh symbol with count one at its ordered position
/// observes that symbol once more and keeps the table sorted.
#[verifier::rlimit(100)]
#[verifier::spinoff_prover]
proof fn lemma_entries_insert_new<S: OrderedSymbol>(e0: Seq<(S, usize)>, p: int, symbol: S)
    requires
        entries_wf(e0),
        symbols_ascending(e0),
        0 <= p <= e0.len(),
        pair_count_sum(e0) < usize::MAX,
        forall|k: int| 0 <= k < p ==> (#[trigger] e0[k]).0.le(symbol) && e0[k].0 != symbol,
        forall|k: int| p <= k < e0.len() ==> symbol.le((#[trigger] e0[k]).0) && e0[k].0 != symbol,
    ensures
        entries_wf(e0.insert(p, (symbol, 1usize))),
        symbols_ascending(e0.insert(p, (symbol, 1usize))),
        pairs_ms(e0.insert(p, (symbol, 1usize))) =~= pairs_ms(e0).insert(symbol),
{
    lemma_pairs_ms_count_absent(e0, symbol);
    lemma_pair_sum_insert(e0, p, (symbol, 1usize));
    e0.insert_ensures(p, (symbol, 1usize));
    let e1 = e0.insert(p, (symbol, 1usize));
    assert forall|a: int, b: int| 0 <= a < b < e1.len() implies (#[trigger] e1[a]).0.le(
        (#[trigger] e1[b]).0,
    ) by {
        if a < p && b == p {
            assert(e0[a].0.le(symbol));
        } else if a == p && b > p {
            assert(symbol.le(e0[b - 1].0));
        } else if a < p && b > p {
            assert(e0[a].0.le(e0[b - 1].0));
        } else if a > p && b > p {
            assert(e0[a - 1].0.le(e0[b - 1].0));
        } else {
            assert(e0[a].0.le(e0[b].0));
        }
    }
    assert forall|a: int, b: int| 0 <= a < b < e1.len() implies (#[trigger] e1[a]).0 != (
    #[trigger] e1[b]).0 by {
        if a == p {
            assert(e1[b] == e0[b - 1]);
        } else if b == p {
            assert(e1[a] == e0[a]);
        }
    }
    lemma_pairs_ms_count_at(e1, p);
    assert forall|j: int|
        0 <= j < e0.len() && e0[j].0 != symbol implies exists|k: int|
        0 <= k < e1.len() && #[trigger] e1[k] == (e0[j].0, e0[j].1) by {
        if j < p {
            assert(e1[j] == (e0[j].0, e0[j].1));
        } else {
            assert(e1[j + 1] == (e0[j].0, e0[j].1));
        }
    }
    assert forall|k: int|
        0 <= k < e1.len() && e1[k].0 != symbol implies exists|j: int|
        0 <= j < e0.len() && #[trigger] e0[j] == (e1[k].0, e1[k].1) by {
        if k < p {
            assert(e0[k] == (e1[k].0, e1[k].1));
        } else {
            assert(e0[k - 1] == (e1[k].0, e1[k].1));
        }
    }
    lemma_pairs_ms_bump(e0, e1, symbol);
}

/// A sparse histogram for symbols with a total order; entries stay sorted
/// by symbol value, so the listing comes out in ascending symbol order.
pub struct BTreeMapHistogram<S: OrderedSymbol> {
    entries: Vec<(S, usize)>,
}

impl<S: OrderedSymbol> BTreeMapHistogram<S> {
    #[verifier::type_invariant]
    spec fn wf(self) -> bool {
        &&& entries_wf(self.entries@)
        &&& symbols_ascending(self.entries@)
    }
}

/// Finds the entry holding `symbol` in a sorted table, or the position
/// where it belongs.
fn locate_sorted<S: OrderedSymbol>(entries: &Vec<(S, usize)>, symbol: S) -> (r: Result<
    usize,
    usize,
>)
    requires
        symbols_ascending(entries@),
        forall|i: int, j: int|
            0 <= i < j < entries@.len() ==> (#[trigger] entries@[i]).0 != (#[trigger] entries@[j]).0,
    ensures
        match r {
            Ok(i) => i < entries@.len() && entries@[i as int].0 == symbol,
            Err(p) => {
                &&& p <= entries@.len()
                &&& forall|k: int|
                    0 <= k < p ==> (#[trigger] entries@[k]).0.le(symbol) && entries@[k].0 != symbol
                &&& forall|k: int|
                    p <= k < entries@.len() ==> symbol.le((#[trigger] entries@[k]).0)
                        && entries@[k].0 != symbol
            },
        },
{
    let n = entries.len();
    let mut i: usize = 0;
    while i < n
        invariant
            n == entries@.len(),
            i <= n,
            symbols_ascending(entries@),
            forall|k: int|
                0 <= k < i ==> (#[trigger] entries@[k]).0.le(symbol) && entries@[k].0 != symbol,
        decreases n - i,
    {
        let e = entries[i];
        if e.0.eq_symbol(&symbol) {
            return Ok(i);
        }
        if e.0.le_symbol(&symbol) {
            i += 1;
        } else {
            proof {
                S::lemma_total(entries@[i as int].0, symbol);
                assert forall|k: int|
                    i <= k < entries@.len() implies symbol.le((#[trigger] entries@[k]).0)
                    && entries@[k].0 != symbol by {
                    if k > i {
                        S::lemma_transitive(symbol, entries@[i as int].0, entries@[k].0);
                        if entries@[k].0 == symbol {
                            assert(entries@[i as int].0.le(symbol));
                        }
                    }
                }
            }
            return Err(i);
        }
    }
    Err(n)
}

impl<S: OrderedSymbol> Histogram<S> for BTreeMapHistogram<S> {
    closed spec fn symbols(&self) -> Multiset<S> {
        pairs_ms(self.entries@)
    }

    fn empty() -> (h: Self) {
        let entries: Vec<(S, usize)> = Vec::new();
        proof {
            assert(pairs_ms(entries@) =~= Multiset::<S>::empty());
        }
        BTreeMapHistogram { entries }
    }

    fn update(&mut self, symbol: S) {
        proof {
            use_type_invariant(&*self);
            lemma_pairs_ms_len(self.entries@);
        }
        let ghost e0 = self.entries@;
        match locate_sorted(&self.entries, symbol) {
            Ok(i) => {
                let c = self.entries[i].1;
                proof {
                    lemma_entries_increment(e0, i as int, symbol);
                    lemma_ascending_update(e0, i as int, (symbol, (c + 1) as usize));
                }
                vstd::std_specs::core::index_set(&mut self.entries, i, (symbol, c + 1));
            },
            Err(p) => {
                proof {
                    lemma_entries_insert_new(e0, p as int, symbol);
                }
                let mut entries: Vec<(S, usize)> = Vec::new();
                core::mem::swap(&mut entries, &mut self.entries);
                entries.insert(p, (symbol, 1));
                self.entries = entries;
            },
        }
    }

    /// A symbol never observed reports "absent", not zero.
    fn frequency_of(&self, symbol: S) -> (r: Option<usize>)
        ensures
            self.symbols().count(symbol) == 0 ==> r is None,
    {
        proof {
            use_type_invariant(self);
        }
        match locate_sorted(&self.entries, symbol) {
            Ok(i) => {
                proof {
                    lemma_pairs_ms_count_at(self.entries@, i as int);
                }
                Some(self.entries[i].1)
            },
            Err(_) => {
                proof {
                    lemma_pairs_ms_count_absent(self.entries@, symbol);
                }
                None
            },
        }
    }

    /// The pairs come in ascending symbol order.
    fn frequencies(self) -> (r: Vec<(S, usize)>)
        ensures
            symbols_ascending(r@),
    {
        proof {
            use_type_invariant(&self);
            lemma_listing_of_wf_entries(self.entries@);
        }
        let BTreeMapHistogram { entries } = self;
        entries
    }

    fn total(&self) -> (r: usize) {
        proof {
            use_type_invariant(self);
            lemma_pairs_ms_len(self.entries@);
        }
        sum_counts(&self.entries)
    }
}

impl<S: OrderedSymbol> Default for BTreeMapHistogram<S> {
    /// A fresh container with no entries.
    fn default() -> (h: Self)
        ensures
            h.symbols() == Multiset::<S>::empty(),
    {
        BTreeMapHistogram::empty()
    }
}

} // verus!
