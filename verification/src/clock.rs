//! A per-millisecond monotonic counter: the state behind ID generation.
//!
//! The clock keeps the last timestamp and random value it handed out. A new
//! millisecond draws fresh random bits; the same millisecond increments the
//! counter; a wall clock that steps backwards keeps the last timestamp and
//! increments the counter, so IDs never regress. A pinned (explicit) earlier
//! timestamp is honored as given.
use crate::digits::{digits_in_range, lemma_digits_of_horner, lemma_horner_bound};
use crate::uuid::be_value;
use vstd::arithmetic::power2::*;
use vstd::prelude::*;

verus! {

/// Source of a per-millisecond monotonic random counter.
pub struct MonotonicClock {
    /// Mask of the random field: `2^bits - 1`.
    pub mask: u128,
    /// Number of random bytes drawn for a fresh field: `bits / 8` rounded up.
    pub nbytes: usize,
    /// The last timestamp handed out; -1 before the first.
    pub last_ms: i128,
    /// The last random value handed out.
    pub last_rand: u128,
}

/// `r` is `draw`'s bytes, read big-endian over the first `nbytes`, masked.
pub open spec fn drawn<F: FnOnce(usize) -> [u8; 16]>(draw: F, nbytes: usize, mask: u128, r: u128) -> bool {
    exists|buf: [u8; 16]|
        draw.ensures((nbytes,), buf) && r == ((be_value(buf@.take(nbytes as int)) as u128) & mask)
}

impl MonotonicClock {
    /// The fields are in range: at most 16 random bytes, a timestamp that is
    /// -1 or a `u64`, and a counter within the mask.
    pub open spec fn wf(&self) -> bool {
        &&& self.nbytes <= 16
        &&& self.mask < u128::MAX
        &&& -1 <= self.last_ms <= u64::MAX
        &&& self.last_rand <= self.mask
    }

    /// A request for `ms` starts a fresh random field: a later millisecond, or
    /// a pinned earlier one.
    pub open spec fn starts_fresh(&self, ms: u64, explicit: bool) -> bool {
        ms > self.last_ms || (explicit && ms < self.last_ms)
    }

    /// The clock after handing out `(t, r)`.
    pub open spec fn advanced(&self, t: u64, r: u128) -> Self {
        MonotonicClock { last_ms: t as i128, last_rand: r, ..*self }
    }

    /// A request for `ms` can be served: it starts a fresh field, or the
    /// counter is below the mask. (Otherwise the random field is exhausted
    /// within one millisecond.)
    pub open spec fn has_room(&self, ms: u64, explicit: bool) -> bool {
        self.starts_fresh(ms, explicit) || self.last_rand < self.mask
    }

    /// What a call of `next` for `ms` does: `res` is what it returns and `after`
    /// the clock it leaves. A fresh field is drawn; otherwise the counter goes
    /// up by one under the last timestamp.
    pub open spec fn next_outcome<F: FnOnce(usize) -> [u8; 16]>(
        &self,
        ms: u64,
        explicit: bool,
        draw: F,
        res: (u64, u128),
        after: Self,
    ) -> bool {
        if self.starts_fresh(ms, explicit) {
            &&& res.0 == ms
            &&& drawn(draw, self.nbytes, self.mask, res.1)
            &&& after == self.advanced(res.0, res.1)
        } else {
            &&& res == (self.last_ms as u64, (self.last_rand + 1) as u128)
            &&& after == self.advanced(self.last_ms as u64, (self.last_rand + 1) as u128)
        }
    }

    /// The pair `(last_ms, last_rand)` of `self` is lexicographically below that of `other`.
    pub open spec fn precedes(&self, other: Self) -> bool {
        self.last_ms < other.last_ms || (self.last_ms == other.last_ms && self.last_rand
            < other.last_rand)
    }

    /// A clock for a random field of `bits` bits that has handed out nothing yet.
    pub fn new(bits: u32) -> (c: Self)
        requires
            bits < 128,
        ensures
            c.wf(),
            c.mask == pow2(bits as nat) - 1,
            c.nbytes == (bits + 7) / 8,
            c.last_ms == -1,
            c.last_rand == 0,
    {
        proof {
            lemma_one_shl(bits);
            lemma_pow2_pos(bits as nat);
            lemma_pow2_strictly_increases(bits as nat, 128);
            lemma2_to64();
            lemma_pow2_adds(64, 64);
        }
        MonotonicClock {
            mask: (1u128 << bits) - 1,
            nbytes: ((bits + 7) / 8) as usize,
            last_ms: -1,
            last_rand: 0,
        }
    }

    /// Whether a request for `ms` can be served. When it cannot, the random
    /// field is exhausted within one millisecond: the caller fails there.
    pub fn can_advance(&self, ms: u64, explicit: bool) -> (b: bool)
        ensures
            b == self.has_room(ms, explicit),
    {
        let wanted = ms as i128;
        wanted > self.last_ms || (explicit && wanted < self.last_ms) || self.last_rand < self.mask
    }

    /// Return `(ms, rand)` for a request at `ms`. `explicit` marks a pinned
    /// timestamp, which is honored verbatim; otherwise `ms` is the wall clock,
    /// and the result never regresses even if it steps backwards. `draw(n)`
    /// supplies random bytes, of which the first `n` are used; it is called
    /// only when a fresh random field starts. The request must have room
    /// (`can_advance`).
    pub fn next<F: FnOnce(usize) -> [u8; 16]>(&mut self, ms: u64, explicit: bool, draw: F) -> (res:
        (u64, u128))
        requires
            old(self).wf(),
            old(self).has_room(ms, explicit),
            draw.requires((old(self).nbytes,)),
        ensures
            final(self).wf(),
            old(self).next_outcome(ms, explicit, draw, res, *final(self)),
    {
        let wanted = ms as i128;
        if wanted > self.last_ms || (explicit && wanted < self.last_ms) {
            // A new millisecond, or a pinned earlier one: fresh random bits.
            let buf = draw(self.nbytes);
            let raw = random_bits(&buf, self.nbytes);
            let mask = self.mask;
            let rand = raw & mask;
            assert(rand <= mask) by (bit_vector)
                requires
                    rand == raw & mask,
            ;
            self.last_ms = wanted;
            self.last_rand = rand;
            (ms, rand)
        } else {
            // Same millisecond, or a wall clock that stepped backwards: hold the
            // last timestamp and increment the counter.
            let rand = self.last_rand + 1;
            self.last_rand = rand;
            (self.last_ms as u64, rand)
        }
    }
}

/// A live request (or a pinned one that does not go back in time) leaves the
/// clock strictly after where it was: what it hands out comes after what the
/// clock handed out before.
pub proof fn lemma_step_advances<F: FnOnce(usize) -> [u8; 16]>(
    before: MonotonicClock,
    ms: u64,
    explicit: bool,
    draw: F,
    res: (u64, u128),
    after: MonotonicClock,
)
    requires
        before.wf(),
        after.wf(),
        !explicit || ms >= before.last_ms,
        before.next_outcome(ms, explicit, draw, res, after),
    ensures
        before.precedes(after),
        after.last_ms == res.0 && after.last_rand == res.1,
{
}

/// A request for a later millisecond, or a pinned earlier one, hands out that
/// millisecond, whatever the counter was, with a random field that is read
/// from the draw: the 16 drawn bytes as one big-endian number, shifted down to
/// their first `nbytes` bytes, under the mask. With `8 * nbytes >= bits`, every
/// bit under the mask comes from the draw.
pub proof fn lemma_fresh_field_from_draw<F: FnOnce(usize) -> [u8; 16]>(
    c: MonotonicClock,
    bits: u32,
    ms: u64,
    explicit: bool,
    draw: F,
    res: (u64, u128),
    after: MonotonicClock,
)
    requires
        c.wf(),
        bits < 128,
        c.mask == pow2(bits as nat) - 1,
        c.nbytes == (bits + 7) / 8,
        ms > c.last_ms || (explicit && ms < c.last_ms),
        c.next_outcome(ms, explicit, draw, res, after),
    ensures
        res.0 == ms,
        after.last_ms == ms,
        after.last_rand == res.1,
        8 * c.nbytes >= bits,
        exists|buf: [u8; 16]|
            draw.ensures((c.nbytes,), buf) && res.1 == ((be_value(buf@) / pow2(
                (8 * (16 - c.nbytes)) as nat,
            )) as u128) & c.mask,
{
    assert(c.starts_fresh(ms, explicit));
    let n = c.nbytes;
    let buf = choose|buf: [u8; 16]|
        draw.ensures((n,), buf) && res.1 == ((be_value(buf@.take(n as int)) as u128) & c.mask);
    let bs = buf@;
    let ds = bs.map_values(|b: u8| b as nat);
    lemma2_to64();
    assert(digits_in_range(ds, 8));
    lemma_digits_of_horner(ds, 8, n as nat);
    assert(bs.take(n as int).map_values(|b: u8| b as nat) =~= ds.take(n as int));
    assert(digits_in_range(ds.take(n as int), 8));
    lemma_horner_bound(ds.take(n as int), 8);
    let x = be_value(bs.take(n as int));
    if n < 16 {
        lemma_pow2_strictly_increases((8 * n) as nat, 128);
    }
    lemma_pow2_adds(64, 64);
    assert(x == be_value(bs) / pow2((8 * (16 - n)) as nat));
}

/// A request for the last millisecond, or a wall-clock request that is behind
/// it, hands out the last timestamp again with the counter one higher, and
/// draws nothing into the result.
pub proof fn lemma_counter_step<F: FnOnce(usize) -> [u8; 16]>(
    c: MonotonicClock,
    ms: u64,
    explicit: bool,
    draw: F,
    res: (u64, u128),
    after: MonotonicClock,
)
    requires
        c.wf(),
        ms == c.last_ms || (!explicit && ms < c.last_ms),
        c.next_outcome(ms, explicit, draw, res, after),
    ensures
        res.0 as int == c.last_ms,
        res.1 == c.last_rand + 1,
        after.last_ms == c.last_ms,
        after.last_rand == res.1,
        after.mask == c.mask && after.nbytes == c.nbytes,
{
}

/// In a run of clock states where each state comes strictly after the one
/// before, every state comes strictly after every earlier one.
pub proof fn lemma_run_ordered(states: Seq<MonotonicClock>, i: int, j: int)
    requires
        0 <= i < j < states.len(),
        forall|k: int| 0 <= k < states.len() - 1 ==> #[trigger] states[k].precedes(states[k + 1]),
    ensures
        states[i].precedes(states[j]),
    decreases j - i,
{
    if j > i + 1 {
        lemma_run_ordered(states, i, j - 1);
        let k = j - 1;
        assert(states[k].precedes(states[k + 1]));
        assert(k + 1 == j);
    } else {
        assert(states[i].precedes(states[i + 1]));
    }
}

/// The value of the first `nbytes` bytes of `buf`, big-endian.
pub open spec fn random_bits_value(buf: Seq<u8>, nbytes: usize) -> u128 {
    be_value(buf.take(nbytes as int)) as u128
}

/// Read the first `nbytes` (at most 16) bytes of `buf` as a big-endian number.
pub fn random_bits(buf: &[u8; 16], nbytes: usize) -> (value: u128)
    requires
        nbytes <= 16,
    ensures
        value as nat == be_value(buf@.take(nbytes as int)),
        value == random_bits_value(buf@, nbytes),
{
    let ghost bs = buf@;
    let mut value: u128 = 0;
    let mut i: usize = 0;
    proof {
        lemma2_to64();
    }
    while i < nbytes
        invariant
            bs == buf@,
            bs.len() == 16,
            i <= nbytes <= 16,
            value as nat == be_value(bs.take(i as int)),
            value < pow2(8 * i as nat),
        decreases nbytes - i,
    {
        let b = buf[i];
        proof {
            let prev = be_value(bs.take(i as int));
            let ds = bs.take(i + 1).map_values(|x: u8| x as nat);
            assert(ds.drop_last() =~= bs.take(i as int).map_values(|x: u8| x as nat));
            lemma2_to64();
            lemma_pow2_adds(8 * i as nat, 8);
            assert(prev * 256 + b < pow2(8 * i as nat) * 256) by (nonlinear_arith)
                requires
                    prev < pow2(8 * i as nat),
                    b < 256,
            ;
            if i < 15 {
                lemma_pow2_strictly_increases(8 * (i + 1) as nat, 128);
            }
            lemma_pow2_adds(64, 64);
        }
        value = value * 256 + b as u128;
        i = i + 1;
    }
    value
}

/// `1 << bits` is `2^bits`.
proof fn lemma_one_shl(bits: u32)
    requires
        bits < 128,
    ensures
        (1u128 << bits) as nat == pow2(bits as nat),
    decreases bits,
{
    if bits == 0 {
        assert(1u128 << 0u32 == 1) by (bit_vector);
        lemma2_to64();
    } else {
        lemma_one_shl((bits - 1) as u32);
        assert(1u128 << bits == (1u128 << ((bits - 1) as u32)) * 2) by (bit_vector)
            requires
                0 < bits < 128,
        ;
        lemma_pow2_unfold(bits as nat);
    }
}

} // verus!
