//! Symbol-frequency counting and the distribution layer beneath Shannon
//! entropy.
//!
//! A sequence of discrete symbols is consumed once into a frequency
//! container (the [`Histogram`] trait), which maps each symbol to the
//! number of times it occurred.  Three interchangeable strategies back the
//! container: a dense array over the byte alphabet, a sparse container for
//! arbitrary symbols with equality, and a sparse container that keeps its
//! entries in symbol order.  The populated container is wrapped in a
//! [`Frequencies`] value, from which callers read the total count and the
//! non-zero `(symbol, count)` pairs that probability and entropy
//! derivations are built on.

mod byte_histogram;
mod frequencies;
mod histogram;
mod laws;
mod sparse_histogram;
mod symbol;

pub use byte_histogram::ByteHistogram;
pub use frequencies::Frequencies;
pub use frequencies::FrequencyIteratorExt;
pub use histogram::Histogram;
pub use histogram::is_frequency_listing;
pub use histogram::pair_count_sum;
pub use laws::lemma_count_is_occurrences;
pub use laws::lemma_frequency_listing_sum;
pub use laws::lemma_single_symbol_listing;
pub use laws::lemma_total_is_sequence_length;
pub use laws::occurrences;
pub use sparse_histogram::BTreeMapHistogram;
pub use sparse_histogram::HashMapHistogram;
pub use sparse_histogram::symbols_ascending;
pub use symbol::OrderedSymbol;
pub use symbol::Symbol;
