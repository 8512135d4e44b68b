//! A single-producer, single-consumer ring of samples.
//!
//! The hand-off from an input callback to an output callback. Samples are
//! held as their IEEE-754 bit patterns (`u32`), so the ring never looks at
//! what they mean. Two counters run forward for ever, modulo the machine
//! word: `head` counts the samples ever pushed and `tail` those ever popped,
//! and a sample's slot is its position in that count, masked down to the
//! storage, whose length is a power of two.
use vstd::arithmetic::div_mod::{lemma_mod_equivalence, lemma_mod_multiples_vanish, lemma_small_mod};
use vstd::arithmetic::power2::{
    lemma2_to64, lemma_pow2_adds, lemma_pow2_pos, lemma_pow2_strictly_increases, lemma_pow2_unfold, pow2,
};
use vstd::bits::{lemma_usize_low_bits_mask_is_mod, low_bits_mask};
use vstd::prelude::*;

verus! {

/// How many distinct values a `usize` has.
pub open spec fn word() -> int {
    usize::MAX as int + 1
}

/// The power of two that a ring asked for `capacity` samples holds, found
/// by doubling from `p` (itself a power of two).
pub open spec fn double_until(p: nat, capacity: nat) -> nat
    decreases (if p < capacity { capacity - p } else { 0 }),
{
    if p == 0 || p >= capacity {
        p
    } else {
        double_until(2 * p, capacity)
    }
}

/// The storage a ring asked for `capacity` samples gets: the capacity
/// rounded up to a power of two, and never fewer than two.
pub open spec fn rounded_capacity(capacity: nat) -> nat {
    double_until(2, capacity)
}

/// Whether `n` is a power of two.
pub open spec fn is_power_of_two(n: nat) -> bool {
    exists|k: nat| pow2(k) == n
}

/// How many of `offered` samples a ring with `space` free slots takes.
pub open spec fn taken(offered: nat, space: int) -> nat {
    if offered as int <= space {
        offered
    } else if space <= 0 {
        0
    } else {
        space as nat
    }
}

/// How many samples a pop into `room` slots hands out of `waiting`.
pub open spec fn handed(room: nat, waiting: nat) -> nat {
    if room <= waiting {
        room
    } else {
        waiting
    }
}

/// A push takes as much of what it is offered as there is room for: no more
/// than was offered, no more than the free space, and all of one or the
/// other.
pub proof fn law_a_push_takes_what_fits(offered: nat, space: int)
    ensures
        taken(offered, space) <= offered,
        taken(offered, space) <= space || taken(offered, space) == 0,
        taken(offered, space) == offered || taken(offered, space) == space || (space <= 0
            && taken(offered, space) == 0),
{
}

/// A pop hands out as much as is waiting, up to the room it is given: no
/// more than either, and all of one or the other.
pub proof fn law_a_pop_hands_what_is_waiting(room: nat, waiting: nat)
    ensures
        handed(room, waiting) <= room,
        handed(room, waiting) <= waiting,
        handed(room, waiting) == room || handed(room, waiting) == waiting,
{
}

/// Doubling from `2^k` stops at a power of two `2^m` that reaches the
/// capacity, and the one before it (when there was a step) did not.
proof fn lemma_double_until(k: nat, capacity: nat) -> (m: nat)
    requires
        k >= 1,
    ensures
        m >= k,
        double_until(pow2(k), capacity) == pow2(m),
        pow2(m) >= capacity,
        m == k || pow2((m - 1) as nat) < capacity,
    decreases (if pow2(k) < capacity { capacity - pow2(k) } else { 0 }),
{
    lemma_pow2_pos(k);
    if pow2(k) >= capacity {
        k
    } else {
        lemma_pow2_unfold(k + 1);
        let m = lemma_double_until(k + 1, capacity);
        m
    }
}

/// A ring asked for `capacity` samples holds the smallest power of two that
/// is at least the capacity and at least two.
pub proof fn lemma_rounded_capacity(capacity: nat)
    ensures
        rounded_capacity(capacity) >= capacity,
        rounded_capacity(capacity) >= 2,
        is_power_of_two(rounded_capacity(capacity)),
        forall|p: nat|
            is_power_of_two(p) && p >= capacity && p >= 2 ==> rounded_capacity(capacity) <= p,
{
    lemma2_to64();
    let m = lemma_double_until(1, capacity);
    assert(pow2(1) == 2);
    lemma_pow2_pos(m);
    if m > 1 {
        lemma_pow2_unfold(m);
    }
    assert(is_power_of_two(rounded_capacity(capacity)));
    assert forall|p: nat| is_power_of_two(p) && p >= capacity && p >= 2 implies rounded_capacity(
        capacity,
    ) <= p by {
        let j = choose|j: nat| pow2(j) == p;
        if m > 1 {
            if j < m - 1 {
                lemma_pow2_strictly_increases(j, (m - 1) as nat);
            }
            assert(j >= m);
            if j > m {
                lemma_pow2_strictly_increases(m, j);
            }
        }
    }
}

proof fn lemma_word_is_pow2()
    ensures
        pow2(usize::BITS as nat) == word(),
{
    lemma2_to64();
    assert(usize::BITS == 32 || usize::BITS == 64);
}

/// Adding or taking away a whole word leaves a position's slot alone.
proof fn lemma_slot_ignores_word(y: int, order: nat)
    requires
        order < usize::BITS,
    ensures
        (y - word()) % (pow2(order) as int) == y % (pow2(order) as int),
        (y + word()) % (pow2(order) as int) == y % (pow2(order) as int),
{
    lemma_word_is_pow2();
    lemma_pow2_adds(order, (usize::BITS - order) as nat);
    lemma_pow2_pos(order);
    lemma_pow2_pos((usize::BITS - order) as nat);
    let q = pow2((usize::BITS - order) as nat) as int;
    let m = pow2(order) as int;
    assert(m * q == word());
    lemma_mod_multiples_vanish(-q, y, m);
    lemma_mod_multiples_vanish(q, y, m);
    assert(m * (-q) + y == y - word()) by (nonlinear_arith)
        requires
            m * q == word(),
    ;
}

/// The slot the machine computes, `(x + i) & mask` in wrapping arithmetic,
/// is the position `x + i` modulo the storage.
proof fn lemma_masked_slot(x: usize, i: usize, mask: usize, order: nat)
    requires
        1 <= order < usize::BITS,
        mask < usize::MAX,
        mask + 1 == pow2(order),
    ensures
        (x.wrapping_add(i) & mask) as int == (x + i) % (mask + 1) as int,
{
    let w = x.wrapping_add(i);
    lemma_usize_low_bits_mask_is_mod(w, order);
    assert(low_bits_mask(order) == mask);
    assert((low_bits_mask(order) as usize) == mask);
    assert((pow2(order) as usize) == mask + 1);
    assert((w & mask) as int == w as int % (mask + 1) as int);
    lemma_slot_ignores_word(x + i, order);
    if x + i > usize::MAX {
        assert(w as int == x + i - word());
    } else {
        assert(w as int == x + i);
    }
}

/// Two positions less than the storage apart never share a slot.
proof fn lemma_slots_differ(t: int, a: int, b: int, cap: int)
    requires
        0 <= a < b < cap,
    ensures
        (t + a) % cap != (t + b) % cap,
{
    lemma_mod_equivalence(t + b, t + a, cap);
    lemma_small_mod((b - a) as nat, cap as nat);
}

/// The storage slot, under `mask`, of the sample `j` places after `t`.
spec fn position(t: usize, mask: usize, j: int) -> int {
    (t + j) % (mask + 1) as int
}

/// A ring of samples for exactly one producer and one consumer.
///
/// Neither end waits for the other. A push into a full ring takes what fits
/// and drops the rest; a pop from an empty one writes nothing. Both say how
/// many samples they moved, which is the only way to notice.
///
/// Both ends take the ring by `&mut`: two callbacks on two threads share it
/// behind a lock, each holding it for one push or one pop at a time.
pub struct Ring {
    buf: Vec<u32>,
    mask: usize,
    /// Samples ever pushed, modulo the word.
    head: usize,
    /// Samples ever popped, modulo the word.
    tail: usize,
    /// The storage holds `2^order` samples.
    order: Ghost<nat>,
}

impl Ring {
    /// Samples waiting, from the two counters.
    spec fn count(&self) -> nat {
        if self.head >= self.tail {
            (self.head - self.tail) as nat
        } else {
            (self.head + word() - self.tail) as nat
        }
    }

    /// The storage slot of the `j`-th waiting sample.
    spec fn slot(&self, j: int) -> int {
        position(self.tail, self.mask, j)
    }

    /// The storage is a power of two of at least two slots, and no more
    /// samples wait than it holds.
    pub closed spec fn wf(&self) -> bool {
        &&& 1 <= self.order@ < usize::BITS
        &&& self.mask + 1 == pow2(self.order@)
        &&& self.mask < usize::MAX
        &&& self.buf@.len() == self.mask + 1
        &&& self.count() <= self.mask + 1
    }

    /// Samples the ring can hold.
    pub closed spec fn cap(&self) -> nat {
        (self.mask + 1) as nat
    }

    /// Free slots: what a push can still take.
    pub open spec fn space(&self) -> int {
        self.cap() - self@.len()
    }
}

impl View for Ring {
    type V = Seq<u32>;

    /// The samples waiting to be popped, oldest first.
    closed spec fn view(&self) -> Seq<u32> {
        Seq::new(self.count(), |j: int| self.buf@[self.slot(j)])
    }
}

impl Ring {
    /// A ring holding at least `capacity` samples, rounded up to a power of
    /// two, and never fewer than two.
    ///
    /// Allocates and zeroes the whole ring, so build it before the streams
    /// start and never from a callback.
    pub fn new(capacity: usize) -> (ring: Ring)
        requires
            capacity <= usize::MAX / 16,
        ensures
            ring.wf(),
            ring@ == Seq::<u32>::empty(),
            ring.cap() == rounded_capacity(capacity as nat),
    {
        let mut cap: usize = 2;
        let ghost mut order: nat = 1;
        proof {
            lemma2_to64();
        }
        while cap < capacity
            invariant
                capacity <= usize::MAX / 16,
                1 <= order,
                cap >= 2,
                cap == pow2(order),
                cap <= 2 * capacity || cap == 2,
                double_until(cap as nat, capacity as nat) == double_until(2, capacity as nat),
            decreases usize::MAX - cap,
        {
            proof {
                lemma_pow2_unfold(order + 1);
            }
            cap = cap * 2;
            proof {
                order = order + 1;
            }
        }
        proof {
            lemma_word_is_pow2();
            if order >= usize::BITS {
                lemma_pow2_adds(usize::BITS as nat, (order - usize::BITS) as nat);
                lemma_pow2_pos((order - usize::BITS) as nat);
                assert(pow2(order) >= pow2(usize::BITS as nat)) by (nonlinear_arith)
                    requires
                        pow2(order) == pow2(usize::BITS as nat) * pow2((order - usize::BITS) as nat),
                        pow2((order - usize::BITS) as nat) > 0,
                        pow2(usize::BITS as nat) > 0,
                ;
            }
        }
        let mut buf: Vec<u32> = Vec::new();
        while buf.len() < cap
            invariant
                buf@.len() <= cap,
            decreases cap - buf@.len(),
        {
            buf.push(0);
        }
        let ring = Ring { buf, mask: cap - 1, head: 0, tail: 0, order: Ghost(order) };
        assert(ring@ =~= Seq::<u32>::empty());
        ring
    }

    /// What every well-formed ring keeps: no more samples wait than it
    /// holds, and it holds at least two.
    pub proof fn lemma_bounds(&self)
        requires
            self.wf(),
        ensures
            self@.len() <= self.cap(),
            2 <= self.cap() <= usize::MAX,
    {
        lemma_pow2_unfold(self.order@);
        lemma_pow2_pos((self.order@ - 1) as nat);
    }

    /// Samples the ring can hold.
    pub fn capacity(&self) -> (n: usize)
        requires
            self.wf(),
        ensures
            n == self.cap(),
            n >= 2,
            self@.len() <= n,
    {
        proof {
            lemma_pow2_unfold(self.order@);
            lemma_pow2_pos((self.order@ - 1) as nat);
        }
        self.mask + 1
    }

    /// Samples waiting to be popped.
    pub fn len(&self) -> (n: usize)
        requires
            self.wf(),
        ensures
            n == self@.len(),
    {
        self.head.wrapping_sub(self.tail)
    }

    /// Whether nothing is waiting.
    pub fn is_empty(&self) -> (empty: bool)
        requires
            self.wf(),
        ensures
            empty == (self@.len() == 0),
    {
        self.len() == 0
    }

    /// Append as much of `src` as fits, and return how many samples were
    /// taken: fewer than `src.len()` when the consumer has fallen behind, and
    /// the rest of `src` is dropped rather than held back.
    pub fn push(&mut self, src: &[u32]) -> (n: usize)
        requires
            old(self).wf(),
        ensures
            old(self)@.len() <= old(self).cap(),
            n == taken(src@.len(), old(self).space()),
            final(self)@ == old(self)@ + src@.take(n as int),
            final(self).wf(),
            final(self).cap() == old(self).cap(),
            final(self)@.len() <= final(self).cap(),
    {
        let head = self.head;
        let tail = self.tail;
        let free = self.capacity() - head.wrapping_sub(tail);
        let n = if src.len() <= free { src.len() } else { free };
        let ghost before = self@;
        let ghost count = self.count();
        let ghost cap = self.mask + 1;
        let mut i: usize = 0;
        while i < n
            invariant
                self.mask == old(self).mask,
                self.head == head,
                self.tail == tail,
                self.order == old(self).order,
                cap == self.mask + 1,
                1 <= self.order@ < usize::BITS,
                self.mask < usize::MAX,
                self.mask + 1 == pow2(self.order@),
                self.buf@.len() == cap,
                count == self.count(),
                count + n <= cap,
                n <= src@.len(),
                0 <= i <= n,
                before.len() == count,
                forall|j: int| 0 <= j < count ==> self.buf@[position(tail, self.mask, j)] == before[j],
                forall|k: int|
                    0 <= k < i ==> self.buf@[#[trigger] position(tail, self.mask, count + k)] == src@[k],
            decreases n - i,
        {
            let at = head.wrapping_add(i) & self.mask;
            proof {
                lemma_masked_slot(head, i, self.mask, self.order@);
                if head >= tail {
                    assert(head + i == tail + (count + i));
                } else {
                    lemma_slot_ignores_word(tail + (count + i), self.order@);
                }
                assert(at as int == position(tail, self.mask, count + i));
                assert forall|j: int| 0 <= j < count implies position(tail, self.mask, j) != at as int by {
                    lemma_slots_differ(tail as int, j, count + i, cap as int);
                }
                assert forall|k: int| 0 <= k < i implies #[trigger] position(tail, self.mask, count + k)
                    != at as int by {
                    lemma_slots_differ(tail as int, count + k, count + i, cap as int);
                }
            }
            self.buf.set(at, src[i]);
            i += 1;
        }
        self.head = head.wrapping_add(n);
        assert(self.count() == count + n);
        assert forall|j: int| count <= j < count + n implies self@[j] == src@[j - count] by {
            assert(position(tail, self.mask, count + (j - count)) == self.slot(j));
        }
        assert(self@ =~= before + src@.take(n as int));
        n
    }

    /// Fill as much of `dst` as is waiting, and return how many samples were
    /// written. The rest of `dst` is left as it was, so a caller that needs
    /// silence there has to write it.
    pub fn pop(&mut self, dst: &mut [u32]) -> (n: usize)
        requires
            old(self).wf(),
        ensures
            old(self)@.len() <= old(self).cap(),
            n == handed(old(dst)@.len(), old(self)@.len()),
            final(dst)@ == old(self)@.take(n as int) + old(dst)@.skip(n as int),
            final(self)@ == old(self)@.skip(n as int),
            final(self).wf(),
            final(self).cap() == old(self).cap(),
            final(self)@.len() <= final(self).cap(),
    {
        let tail = self.tail;
        let head = self.head;
        let waiting = head.wrapping_sub(tail);
        let n = if dst.len() <= waiting { dst.len() } else { waiting };
        let ghost before = self@;
        let ghost count = self.count();
        let mut i: usize = 0;
        while i < n
            invariant
                self.buf@.len() == self.mask + 1,
                1 <= self.order@ < usize::BITS,
                self.mask < usize::MAX,
                self.mask + 1 == pow2(self.order@),
                self.tail == tail,
                self.head == head,
                count == self.count(),
                before == self@,
                n <= count,
                n <= old(dst)@.len(),
                dst@.len() == old(dst)@.len(),
                0 <= i <= n,
                forall|k: int| 0 <= k < i ==> dst@[k] == before[k],
                forall|k: int| i <= k < dst@.len() ==> dst@[k] == old(dst)@[k],
            decreases n - i,
        {
            let at = tail.wrapping_add(i) & self.mask;
            proof {
                lemma_masked_slot(tail, i, self.mask, self.order@);
            }
            dst[i] = self.buf[at];
            i += 1;
        }
        self.tail = tail.wrapping_add(n);
        proof {
            assert(self.count() == count - n);
            assert forall|j: int| 0 <= j < count - n implies self.slot(j) == (tail + (n + j)) % (self.mask
                + 1) as int by {
                if tail + n > usize::MAX {
                    lemma_slot_ignores_word(tail + (n + j), self.order@);
                }
            }
        }
        assert(self@ =~= before.skip(n as int));
        assert(dst@ =~= before.take(n as int) + old(dst)@.skip(n as int));
        n
    }
}

} // verus!
