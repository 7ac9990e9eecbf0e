//! Executable equality and ordering for the symbol types a histogram can
//! count.
//!
//! The counting strategies are generic over the symbol type, so they need a
//! decidable equality (and, for the order-keeping strategy, a total order)
//! whose executable answer matches the mathematical one the contracts use.

use vstd::prelude::*;

verus! {

/// A value that can be counted by a sparse histogram: it carries an
/// executable equality test that agrees with mathematical equality.
pub trait Symbol: Sized + Copy {
    /// Decides whether two symbols are the same value.
    fn eq_symbol(&self, other: &Self) -> (r: bool)
        ensures
            r == (self == other),
    ;
}

/// A symbol type with a total order, for histograms that keep their
/// entries sorted by symbol value.
pub trait OrderedSymbol: Symbol {
    /// The order the histogram sorts by, as a mathematical relation.
    spec fn le(self, other: Self) -> bool;

    /// The order is reflexive.
    proof fn lemma_reflexive(x: Self)
        ensures
            x.le(x),
    ;

    /// The order is transitive.
    proof fn lemma_transitive(x: Self, y: Self, z: Self)
        requires
            x.le(y),
            y.le(z),
        ensures
            x.le(z),
    ;

    /// Symbols below each other are equal.
    proof fn lemma_antisymmetric(x: Self, y: Self)
        requires
            x.le(y),
            y.le(x),
        ensures
            x == y,
    ;

    /// Any two symbols are comparable.
    proof fn lemma_total(x: Self, y: Self)
        ensures
            x.le(y) || y.le(x),
    ;

    /// Decides the order between two symbols.
    fn le_symbol(&self, other: &Self) -> (r: bool)
        ensures
            r == self.le(*other),
    ;
}

impl Symbol for u8 {
    fn eq_symbol(&self, other: &Self) -> (r: bool) {
        *self == *other
    }
}

impl OrderedSymbol for u8 {
    open spec fn le(self, other: Self) -> bool {
        self <= other
    }

    proof fn lemma_reflexive(x: Self) {
    }

    proof fn lemma_transitive(x: Self, y: Self, z: Self) {
    }

    proof fn lemma_antisymmetric(x: Self, y: Self) {
    }

    proof fn lemma_total(x: Self, y: Self) {
    }

    fn le_symbol(&self, other: &Self) -> (r: bool) {
        *self <= *other
    }
}

impl Symbol for u64 {
    fn eq_symbol(&self, other: &Self) -> (r: bool) {
        *self == *other
    }
}

impl OrderedSymbol for u64 {
    open spec fn le(self, other: Self) -> bool {
        self <= other
    }

    proof fn lemma_reflexive(x: Self) {
    }

    proof fn lemma_transitive(x: Self, y: Self, z: Self) {
    }

    proof fn lemma_antisymmetric(x: Self, y: Self) {
    }

    proof fn lemma_total(x: Self, y: Self) {
    }

    fn le_symbol(&self, other: &Self) -> (r: bool) {
        *self <= *other
    }
}

impl Symbol for char {
    fn eq_symbol(&self, other: &Self) -> (r: bool) {
        *self == *other
    }
}

impl OrderedSymbol for char {
    open spec fn le(self, other: Self) -> bool {
        self <= other
    }

    proof fn lemma_reflexive(x: Self) {
    }

    proof fn lemma_transitive(x: Self, y: Self, z: Self) {
    }

    proof fn lemma_antisymmetric(x: Self, y: Self) {
    }

    proof fn lemma_total(x: Self, y: Self) {
    }

    fn le_symbol(&self, other: &Self) -> (r: bool) {
        *self <= *other
    }
}

} // verus!
