//! The dense counting strategy: one pre-allocated slot per byte value.
//!
//! Storage exists for the whole 256-value alphabet up front, so `update`
//! is a single slot increment and `frequency_of` always answers — an
//! unobserved byte reports its stored zero rather than "absent".

use crate::histogram::Histogram;
use crate::histogram::lemma_repeated;
use crate::histogram::repeated;
use vstd::multiset::Multiset;
use vstd::prelude::*;

verus! {

broadcast use vstd::multiset::group_multiset_properties;

/// The sum of a sequence of slot counts.
spec fn slot_sum(s: Seq<usize>) -> int
    decreases s.len(),
{
    if s.len() == 0 {
        0
    } else {
        slot_sum(s.drop_last()) + s.last()
    }
}

/// The multiset counted by a block of slots: byte `b` occurs `s[b]` times.
spec fn slots_ms(s: Seq<usize>) -> Multiset<u8>
    decreases s.len(),
{
    if s.len() == 0 {
        Multiset::empty()
    } else {
        slots_ms(s.drop_last()).add(repeated((s.len() - 1) as u8, s.last() as nat))
    }
}

proof fn lemma_slots_ms_count(s: Seq<usize>, b: u8)
    requires
        s.len() <= 256,
    ensures
        slots_ms(s).count(b) == if (b as int) < s.len() {
            s[b as int]
        } else {
            0
        },
    decreases s.len(),
{
    if s.len() > 0 {
        lemma_slots_ms_count(s.drop_last(), b);
        lemma_repeated((s.len() - 1) as u8, s.last() as nat);
    }
}

proof fn lemma_slots_ms_len(s: Seq<usize>)
    requires
        s.len() <= 256,
    ensures
        slots_ms(s).len() == slot_sum(s),
    decreases s.len(),
{
    if s.len() > 0 {
        lemma_slots_ms_len(s.drop_last());
        lemma_repeated((s.len() - 1) as u8, s.last() as nat);
    }
}

proof fn lemma_slot_sum_take_step(s: Seq<usize>, i: int)
    requires
        0 <= i < s.len(),
    ensures
        slot_sum(s.take(i + 1)) == slot_sum(s.take(i)) + s[i],
{
    assert(s.take(i + 1).drop_last() =~= s.take(i));
    assert(s.take(i + 1).last() == s[i]);
}

proof fn lemma_slot_sum_take_le(s: Seq<usize>, i: int)
    requires
        0 <= i <= s.len(),
    ensures
        slot_sum(s.take(i)) <= slot_sum(s),
    decreases s.len() - i,
{
    if i == s.len() {
        assert(s.take(i) =~= s);
    } else {
        lemma_slot_sum_take_step(s, i);
        lemma_slot_sum_take_le(s, i + 1);
    }
}

proof fn lemma_slot_sum_update(s: Seq<usize>, i: int, v: usize)
    requires
        0 <= i < s.len(),
    ensures
        slot_sum(s.update(i, v)) == slot_sum(s) + v - s[i],
    decreases s.len(),
{
    let t = s.update(i, v);
    if i == s.len() - 1 {
        assert(t.drop_last() =~= s.drop_last());
    } else {
        assert(t.drop_last() =~= s.drop_last().update(i, v));
        lemma_slot_sum_update(s.drop_last(), i, v);
    }
}

proof fn lemma_slot_sum_zero(s: Seq<usize>)
    requires
        forall|i: int| 0 <= i < s.len() ==> s[i] == 0,
    ensures
        slot_sum(s) == 0,
    decreases s.len(),
{
    if s.len() > 0 {
        lemma_slot_sum_zero(s.drop_last());
    }
}

/// A histogram over the byte alphabet, backed by a fixed block of 256
/// count slots indexed by the byte's value.
pub struct ByteHistogram {
    slots: Vec<usize>,
}

impl ByteHistogram {
    #[verifier::type_invariant]
    spec fn wf(self) -> bool {
        &&& self.slots@.len() == 256
        &&& slot_sum(self.slots@) <= usize::MAX
    }
}

impl Histogram<u8> for ByteHistogram {
    closed spec fn symbols(&self) -> Multiset<u8> {
        slots_ms(self.slots@)
    }

    fn empty() -> (h: Self) {
        let slots: Vec<usize> = vec![0; 256];
        proof {
            lemma_slot_sum_zero(slots@);
            assert forall|b: u8| slots_ms(slots@).count(b) == Multiset::<u8>::empty().count(
                b,
            ) by {
                lemma_slots_ms_count(slots@, b);
            }
            assert(slots_ms(slots@) =~= Multiset::<u8>::empty());
        }
        ByteHistogram { slots }
    }

    fn update(&mut self, symbol: u8) {
        proof {
            use_type_invariant(&*self);
            lemma_slots_ms_len(self.slots@);
        }
        let i = symbol as usize;
        let c = self.slots[i];
        proof {
            lemma_slots_ms_count(self.slots@, symbol);
            assert(self.symbols().count(symbol) <= self.symbols().len());
            assert(c < usize::MAX);
            lemma_slot_sum_update(self.slots@, i as int, (c + 1) as usize);
        }
        let ghost s0 = self.slots@;
        vstd::std_specs::core::index_set(&mut self.slots, i, c + 1);
        proof {
            let s1 = self.slots@;
            assert forall|t: u8| slots_ms(s1).count(t) == slots_ms(s0).insert(symbol).count(
                t,
            ) by {
                lemma_slots_ms_count(s1, t);
                lemma_slots_ms_count(s0, t);
            }
            assert(slots_ms(s1) =~= slots_ms(s0).insert(symbol));
        }
    }

    /// The dense strategy always answers: a byte never observed reports
    /// its stored count of zero, not "absent".
    fn frequency_of(&self, symbol: u8) -> (r: Option<usize>)
        ensures
            r is Some,
    {
        proof {
            use_type_invariant(self);
            lemma_slots_ms_count(self.slots@, symbol);
        }
        Some(self.slots[symbol as usize])
    }

    /// Zero-count slots are filtered out, and the pairs come in byte-value
    /// order.
    fn frequencies(self) -> (r: Vec<(u8, usize)>)
        ensures
            forall|i: int, j: int|
                0 <= i < j < r@.len() ==> (#[trigger] r@[i]).0 < (#[trigger] r@[j]).0,
    {
        proof {
            use_type_invariant(&self);
        }
        let mut r: Vec<(u8, usize)> = Vec::new();
        let mut i: usize = 0;
        while i < 256
            invariant
                self.slots@.len() == 256,
                i <= 256,
                forall|k: int|
                    0 <= k < r@.len() ==> (#[trigger] r@[k]).1 == self.slots@[r@[k].0 as int]
                        && r@[k].1 > 0 && (r@[k].0 as int) < i,
                forall|s: u8|
                    (s as int) < i && self.slots@[s as int] > 0 ==> exists|k: int|
                        0 <= k < r@.len() && (#[trigger] r@[k]).0 == s,
                forall|k1: int, k2: int|
                    0 <= k1 < k2 < r@.len() ==> (#[trigger] r@[k1]).0 < (#[trigger] r@[k2]).0,
            decreases 256 - i,
        {
            let c = self.slots[i];
            let ghost prev = r@;
            if c > 0 {
                r.push((i as u8, c));
            }
            proof {
                assert forall|s: u8| (s as int) < i + 1 && self.slots@[s as int] > 0 implies exists|
                    k: int,
                |
                    0 <= k < r@.len() && (#[trigger] r@[k]).0 == s by {
                    if (s as int) < i {
                        let k0 = choose|k: int| 0 <= k < prev.len() && (#[trigger] prev[k]).0 == s;
                        assert(r@[k0].0 == s);
                    } else {
                        assert(s == i as u8);
                        assert(r@[r@.len() - 1].0 == s);
                    }
                }
            }
            i += 1;
        }
        proof {
            assert forall|t: u8| #[trigger] self.symbols().count(t) == self.slots@[t as int] by {
                lemma_slots_ms_count(self.slots@, t);
            }
        }
        r
    }

    /// Sums the non-zero slots; the zero-count slots contribute nothing.
    fn total(&self) -> (r: usize) {
        proof {
            use_type_invariant(self);
            lemma_slots_ms_len(self.slots@);
        }
        let mut running: usize = 0;
        let mut i: usize = 0;
        while i < 256
            invariant
                self.slots@.len() == 256,
                slot_sum(self.slots@) <= usize::MAX,
                i <= 256,
                running == slot_sum(self.slots@.take(i as int)),
            decreases 256 - i,
        {
            proof {
                lemma_slot_sum_take_step(self.slots@, i as int);
                lemma_slot_sum_take_le(self.slots@, i as int + 1);
            }
            let c = self.slots[i];
            if c > 0 {
                running = running + c;
            }
            i += 1;
        }
        proof {
            assert(self.slots@.take(256) =~= self.slots@);
        }
        running
    }
}

impl Default for ByteHistogram {
    /// A fresh container with every slot at zero.
    fn default() -> (h: Self)
        ensures
            h.symbols() == Multiset::<u8>::empty(),
    {
        ByteHistogram::empty()
    }
}

} // verus!
