//! A first-in first-out buffer of fixed capacity that, when full, makes room
//! for a new item by discarding the oldest one.
use vstd::prelude::*;
use crate::model::keep_last;

verus! {

/// The capacity of a `RingBuffer`: the largest number of nested matches that
/// can end at the same byte and all be reported. A power of two, so that an
/// index wraps around with a mask.
pub const BUFFER_SIZE: usize = 32;

pub struct RingBuffer<T> {
    slots: Vec<Option<T>>,
    head: usize,
    count: usize,
}

/// The slot `x` lands on when `x < 2 * BUFFER_SIZE` wraps around.
spec fn wrap(x: int) -> int {
    if x < 32 {
        x
    } else {
        x - 32
    }
}

impl<T> RingBuffer<T> {
    #[verifier::type_invariant]
    spec fn inv(self) -> bool {
        &&& self.slots.len() == BUFFER_SIZE
        &&& self.head < BUFFER_SIZE
        &&& self.count <= BUFFER_SIZE
        &&& forall|i: int| 0 <= i < self.count ==> (#[trigger] self.slots@[wrap(self.head + i)]) is Some
    }
}

impl<T> View for RingBuffer<T> {
    type V = Seq<T>;

    /// The buffered items, oldest first.
    closed spec fn view(&self) -> Seq<T> {
        Seq::new(self.count as nat, |i: int| self.slots@[wrap(self.head + i)]->Some_0)
    }
}

/// Masking with `BUFFER_SIZE - 1` wraps an index around.
proof fn lemma_mask(x: usize)
    requires
        x < 64,
    ensures
        x & 31 == wrap(x as int),
{
    assert(x < 64 ==> x & 31 == if x < 32 { x } else { (x - 32) as usize }) by (bit_vector);
}

impl<T> RingBuffer<T> {
    pub fn new() -> (r: Self)
        ensures
            r@ == Seq::<T>::empty(),
    {
        let mut slots: Vec<Option<T>> = Vec::new();
        let mut i: usize = 0;
        while i < BUFFER_SIZE
            invariant
                i <= BUFFER_SIZE,
                slots@.len() == i,
            decreases BUFFER_SIZE - i,
        {
            slots.push(None);
            i += 1;
        }
        let r = RingBuffer { slots, head: 0, count: 0 };
        assert(r@ =~= Seq::<T>::empty());
        r
    }

    /// The number of buffered items.
    pub fn len(&self) -> (r: usize)
        ensures
            r == self@.len(),
            r <= BUFFER_SIZE,
    {
        proof {
            use_type_invariant(self);
        }
        self.count
    }

    /// Appends `value`; when the buffer is full the oldest item is discarded first.
    pub fn push_back(&mut self, value: T)
        ensures
            final(self)@ == if old(self)@.len() < BUFFER_SIZE {
                old(self)@.push(value)
            } else {
                old(self)@.drop_first().push(value)
            },
        no_unwind
    {
        proof {
            use_type_invariant(&*self);
        }
        let ghost before = self@;
        if self.count < BUFFER_SIZE {
            proof {
                lemma_mask((self.head + self.count) as usize);
            }
            let index = (self.head + self.count) & (BUFFER_SIZE - 1);
            self.slots[index] = Some(value);
            self.count += 1;
            assert(self@ =~= before.push(value));
        } else {
            let index = self.head;
            self.count -= 1;
            proof {
                lemma_mask((self.head + 1) as usize);
                assert forall|i: int| 0 <= i < self.count implies (#[trigger] self.slots@[wrap(
                    wrap(self.head + 1) + i,
                )]) is Some by {
                    assert(wrap(wrap(self.head + 1) + i) == wrap(self.head + (i + 1)));
                }
            }
            self.head = (self.head + 1) & (BUFFER_SIZE - 1);
            proof {
                assert forall|i: int| 0 <= i < self.count implies #[trigger] wrap(self.head + i)
                    != index by {
                    assert(wrap(self.head + i) == wrap(index + (i + 1)));
                }
            }
            self.slots[index] = Some(value);
            proof {
                assert(wrap(self.head + 31) == index);
            }
            self.count += 1;
            assert forall|i: int| 0 <= i < self@.len() implies self@[i] == before.drop_first().push(
                value,
            )[i] by {
                if i < 31 {
                    assert(wrap(self.head + i) == wrap(index + (i + 1)));
                } else {
                    assert(wrap(self.head + i) == index);
                }
            }
            assert(self@ =~= before.drop_first().push(value));
        }
    }

    /// Removes and returns the oldest item, or `None` when the buffer is empty.
    pub fn pop_front(&mut self) -> (r: Option<T>)
        ensures
            old(self)@.len() == 0 ==> r is None && final(self)@ == old(self)@,
            old(self)@.len() > 0 ==> r == Some(old(self)@[0]) && final(self)@ == old(
                self,
            )@.drop_first(),
        no_unwind
    {
        proof {
            use_type_invariant(&*self);
        }
        if self.count == 0 {
            None
        } else {
            let ghost before = self@;
            let index = self.head;
            assert(self.slots@[wrap(self.head + 0)] is Some);
            self.count -= 1;
            proof {
                lemma_mask((self.head + 1) as usize);
                assert forall|i: int| 0 <= i < self.count implies (#[trigger] self.slots@[wrap(
                    wrap(self.head + 1) + i,
                )]) is Some by {
                    assert(wrap(wrap(self.head + 1) + i) == wrap(self.head + (i + 1)));
                }
            }
            self.head = (self.head + 1) & (BUFFER_SIZE - 1);
            proof {
                assert forall|i: int| 0 <= i < self.count implies #[trigger] wrap(self.head + i) != index by {
                    assert(wrap(self.head + i) == wrap(index + (i + 1)));
                }
            }
            let mut value: Option<T> = None;
            std::mem::swap(&mut self.slots[index], &mut value);
            assert forall|i: int| 0 <= i < self@.len() implies self@[i] == before.drop_first()[i] by {
                assert(wrap(self.head + i) == wrap(index + (i + 1)));
            }
            assert(self@ =~= before.drop_first());
            value
        }
    }
}

/// Pushing `x` into a buffer that holds the last 32 items of `s` leaves it
/// holding the last 32 items of `s` followed by `x`.
pub proof fn lemma_keep_last_push<T>(s: Seq<T>, x: T)
    ensures
        keep_last(s.push(x), 32) == if keep_last(s, 32).len() < 32 {
            keep_last(s, 32).push(x)
        } else {
            keep_last(s, 32).drop_first().push(x)
        },
{
    if s.len() < 32 {
    } else {
        assert(keep_last(s.push(x), 32) =~= keep_last(s, 32).drop_first().push(x));
    }
}

} // verus!
