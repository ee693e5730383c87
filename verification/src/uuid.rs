//! The UUID value type, the version-7 layout and the canonical hyphenated text.
use crate::digits::{digit, digits_in_range, horner, lemma_digits_of_horner, lemma_horner_bound, lemma_horner_prefix, lemma_prefix_ends, lemma_value_order_digits, digits_agree_before, prefix};
use crate::crockford::{
    lemma_text_precedes_after_prefix, lemma_text_precedes_asymmetric,
    lemma_text_precedes_before_suffix, text_precedes,
};
use crate::text::{all_ascii, ascii_chars, ascii_string};
use crate::clock::{lemma_run_ordered, lemma_step_advances, MonotonicClock};
use crate::time::{epoch_millis_time, time_after_epoch};
use std::time::SystemTime;
use vstd::arithmetic::power2::*;
use vstd::bits::*;
use vstd::prelude::*;

verus! {

/// The 16 big-endian bytes of a value below `2^128`.
pub open spec fn be_bytes(v: nat) -> Seq<u8> {
    Seq::new(16, |i: int| digit(v, 8, 16, i as nat) as u8)
}

/// The number whose big-endian bytes are `bs`.
pub open spec fn be_value(bs: Seq<u8>) -> nat {
    horner(bs.map_values(|b: u8| b as nat), 8)
}

/// The 48-bit millisecond timestamp held in the first six bytes.
pub open spec fn uuid_timestamp(bs: Seq<u8>) -> nat {
    be_value(bs.take(6))
}

/// `a` sorts strictly before `b` byte by byte: at the first position where they
/// differ, `a` has the smaller byte (the order of byte arrays).
pub open spec fn bytes_precede(a: Seq<u8>, b: Seq<u8>) -> bool {
    exists|j: int|
        #![trigger a[j], b[j]]
        0 <= j < a.len() && j < b.len() && (forall|i: int| 0 <= i < j ==> #[trigger] a[i] == b[i])
            && a[j] < b[j]
}

/// The UUIDv7 bit layout (RFC 9562): the 48-bit timestamp, the version 7,
/// the 12 bits `rand_a` (bits 62..74 of `rand`), the variant `0b10`, and the
/// 62 bits `rand_b` (the low bits of `rand`).
pub open spec fn uuid7_bits(ts: u64, rand: u128) -> u128 {
    ((ts as u128 & 0xffff_ffff_ffff) << 80u128) | (0x7u128 << 76u128) | (((rand >> 62u128) & 0xfff)
        << 64u128) | (0b10u128 << 62u128) | (rand & 0x3fff_ffff_ffff_ffff)
}

/// The lowercase hexadecimal digit for `d < 16`.
pub open spec fn hex_code(d: nat) -> u8 {
    if d < 10 {
        ('0' as int + d) as u8
    } else {
        ('a' as int + (d - 10)) as u8
    }
}

/// The two lowercase hex digits of a byte.
pub open spec fn hex_pair(b: u8) -> Seq<char> {
    seq![hex_code(b as nat / 16) as char, hex_code(b as nat % 16) as char]
}

/// The hex digits of a run of bytes, two per byte.
pub open spec fn hex_run(bs: Seq<u8>) -> Seq<char>
    decreases bs.len(),
{
    if bs.len() == 0 {
        Seq::empty()
    } else {
        hex_run(bs.drop_last()) + hex_pair(bs.last())
    }
}

/// The canonical text of a UUID: 32 lowercase hex digits in groups of
/// 8-4-4-4-12, separated by hyphens.
pub open spec fn uuid_text(bs: Seq<u8>) -> Seq<char> {
    hex_run(bs.subrange(0, 4)) + seq!['-'] + hex_run(bs.subrange(4, 6)) + seq!['-'] + hex_run(
        bs.subrange(6, 8),
    ) + seq!['-'] + hex_run(bs.subrange(8, 10)) + seq!['-'] + hex_run(bs.subrange(10, 16))
}

/// A 128-bit UUID held as its 16 raw big-endian bytes. Its derived order is
/// the order of the bytes, so version-7 values sort by their timestamp.
#[derive(Debug, Clone, Copy, PartialEq, Eq, PartialOrd, Ord, Hash)]
pub struct Uuid([u8; 16]);

impl Uuid {
    /// The raw bytes, in order.
    pub closed spec fn bytes(&self) -> Seq<u8> {
        self.0@
    }

    /// Wrap 16 raw bytes as a `Uuid`.
    pub fn from_bytes(bytes: [u8; 16]) -> (u: Uuid)
        ensures
            u.bytes() == bytes@,
    {
        Uuid(bytes)
    }

    /// The raw 16 bytes, big-endian.
    pub fn as_bytes(&self) -> (b: &[u8; 16])
        ensures
            b@ == self.bytes(),
    {
        &self.0
    }

    /// The 4-bit version field: the high nibble of byte 6.
    pub fn version(&self) -> (v: u8)
        ensures
            v == self.bytes()[6] >> 4,
    {
        self.0[6] >> 4
    }

    /// The embedded 48-bit millisecond Unix timestamp: the first six bytes, big-endian.
    pub fn timestamp_ms(&self) -> (ms: u64)
        ensures
            ms as nat == uuid_timestamp(self.bytes()),
            ms < 0x1_0000_0000_0000,
    {
        let ghost bs = self.0@;
        let mut ms: u64 = 0;
        let mut i: usize = 0;
        proof {
            lemma2_to64();
        }
        while i < 6
            invariant
                bs == self.0@,
                bs.len() == 16,
                i <= 6,
                ms as nat == be_value(bs.take(i as int)),
                ms < pow2(8 * i as nat),
            decreases 6 - i,
        {
            let b = self.0[i];
            proof {
                let prev = be_value(bs.take(i as int));
                let ds = bs.take(i + 1).map_values(|x: u8| x as nat);
                assert(ds.drop_last() =~= bs.take(i as int).map_values(|x: u8| x as nat));
                lemma2_to64();
                lemma_pow2_adds(8 * i as nat, 8);
                assert(prev * 256 + b < pow2(8 * i as nat) * 256) by (nonlinear_arith)
                    requires
                        prev < pow2(8 * i as nat),
                        b < 256,
                ;
                lemma_pow2_strictly_increases(8 * (i + 1) as nat, 64);
            }
            ms = ms * 256 + b as u64;
            i = i + 1;
        }
        proof {
            lemma2_to64();
            lemma2_to64_rest();
        }
        ms
    }

    /// The embedded timestamp as a point in time.
    pub fn system_time(&self) -> (t: SystemTime)
        ensures
            t == epoch_millis_time(uuid_timestamp(self.bytes()) as u64),
    {
        time_after_epoch(self.timestamp_ms())
    }
}

/// The 16 big-endian bytes of `value`.
fn be_bytes_of(value: u128) -> (bytes: [u8; 16])
    ensures
        bytes@ == be_bytes(value as nat),
{
    let mut bytes = [0u8; 16];
    let mut i: usize = 0;
    while i < 16
        invariant
            i <= 16,
            bytes@.len() == 16,
            forall|j: int| 0 <= j < i ==> #[trigger] bytes@[j] == digit(value as nat, 8, 16, j as nat) as u8,
        decreases 16 - i,
    {
        let shift: u128 = (8 * (15 - i)) as u128;
        let group = value >> shift;
        proof {
            lemma_u128_shr_is_div(value, shift);
            assert(group as u8 == group % 256) by (bit_vector);
            lemma2_to64();
            assert(8 * ((16 - 1 - i) as nat) == shift);
        }
        bytes[i] = group as u8;
        i = i + 1;
    }
    assert(bytes@ =~= be_bytes(value as nat));
    bytes
}

/// Lay out a version-7 UUID from a timestamp and the 74 random bits.
pub fn assemble_uuid7(ts: u64, rand: u128) -> (u: Uuid)
    ensures
        u.bytes() == be_bytes(uuid7_bits(ts, rand) as nat),
{
    let rand_a = (rand >> 62) & 0xfff;
    assert(1u128 << 62 == 0x4000_0000_0000_0000) by (bit_vector);
    let rand_b = rand & ((1u128 << 62) - 1);
    let mut value: u128 = (ts as u128 & 0xffff_ffff_ffff) << 80;
    value |= 0x7u128 << 76;
    value |= rand_a << 64;
    value |= 0b10u128 << 62;
    value |= rand_b;
    assert(value == uuid7_bits(ts, rand)) by (bit_vector)
        requires
            rand_a == (rand >> 62) & 0xfff,
            rand_b == rand & 0x3fff_ffff_ffff_ffff,
            value == ((ts as u128 & 0xffff_ffff_ffff) << 80) | (0x7u128 << 76) | (rand_a << 64) | (
            0b10u128 << 62) | rand_b,
    ;
    Uuid(be_bytes_of(value))
}

/// The lowercase hex digit for `d < 16`.
fn hex_byte(d: u8) -> (b: u8)
    requires
        d < 16,
    ensures
        b == hex_code(d as nat),
        b < 128,
{
    if d < 10 {
        ('0' as u8) + d
    } else {
        ('a' as u8) + (d - 10)
    }
}

/// Append the hex digits of `bytes[lo..hi]` to `out`.
fn push_hex_run(out: &mut Vec<u8>, bytes: &[u8; 16], lo: usize, hi: usize)
    requires
        lo <= hi <= 16,
        all_ascii(old(out)@),
    ensures
        all_ascii(final(out)@),
        ascii_chars(final(out)@) == ascii_chars(old(out)@) + hex_run(bytes@.subrange(lo as int, hi as int)),
{
    let ghost start = out@;
    let mut i = lo;
    while i < hi
        invariant
            lo <= i <= hi <= 16,
            bytes@.len() == 16,
            all_ascii(out@),
            ascii_chars(out@) == ascii_chars(start) + hex_run(bytes@.subrange(lo as int, i as int)),
        decreases hi - i,
    {
        let b = bytes[i];
        let ghost before = out@;
        out.push(hex_byte(b / 16));
        out.push(hex_byte(b % 16));
        proof {
            let run = bytes@.subrange(lo as int, i + 1);
            assert(run.drop_last() =~= bytes@.subrange(lo as int, i as int));
            assert(run.last() == b);
            assert(ascii_chars(out@) =~= ascii_chars(before) + hex_pair(b));
            assert(ascii_chars(out@) =~= ascii_chars(start) + hex_run(run));
        }
        i = i + 1;
    }
}

impl Uuid {
    /// The canonical hyphenated lowercase text, as in
    /// `0190b2c8-4a1e-7c3d-8f00-123456789abc`.
    pub fn to_string(&self) -> (s: String)
        ensures
            s@ == uuid_text(self.bytes()),
    {
        let ghost bs = self.0@;
        let mut out: Vec<u8> = Vec::new();
        push_hex_run(&mut out, &self.0, 0, 4);
        let ghost g1 = ascii_chars(out@);
        assert(g1 =~= hex_run(bs.subrange(0, 4)));
        out.push('-' as u8);
        assert(ascii_chars(out@) =~= g1 + seq!['-']);
        push_hex_run(&mut out, &self.0, 4, 6);
        let ghost g2 = ascii_chars(out@);
        out.push('-' as u8);
        assert(ascii_chars(out@) =~= g2 + seq!['-']);
        push_hex_run(&mut out, &self.0, 6, 8);
        let ghost g3 = ascii_chars(out@);
        out.push('-' as u8);
        assert(ascii_chars(out@) =~= g3 + seq!['-']);
        push_hex_run(&mut out, &self.0, 8, 10);
        let ghost g4 = ascii_chars(out@);
        out.push('-' as u8);
        assert(ascii_chars(out@) =~= g4 + seq!['-']);
        push_hex_run(&mut out, &self.0, 10, 16);
        assert(ascii_chars(out@) =~= uuid_text(bs));
        ascii_string(out)
    }
}

/// Byte `i` of the big-endian bytes of a 128-bit value is the value shifted
/// down to that byte.
proof fn lemma_be_byte(v: u128, i: nat)
    requires
        i < 16,
    ensures
        be_bytes(v as nat)[i as int] == ((v >> ((8 * (15 - i)) as u128)) as u8),
        be_bytes(v as nat)[i as int] as nat == digit(v as nat, 8, 16, i),
{
    let shift = (8 * (15 - i)) as u128;
    lemma_u128_shr_is_div(v, shift);
    lemma2_to64();
    let g = v >> shift;
    assert(g as u8 == g % 256) by (bit_vector);
    assert(8 * ((16 - 1 - i) as nat) == shift);
}

/// Every 128-bit value is below `2^128`, the range of 16 bytes.
proof fn lemma_u128_fits_16_bytes(v: u128)
    ensures
        (v as nat) < pow2(8 * 16),
{
    lemma2_to64();
    lemma_pow2_adds(64, 64);
}

/// The timestamp field of the bytes of `v` is `v`'s top 48 bits.
pub proof fn lemma_timestamp_of_value(v: u128)
    ensures
        uuid_timestamp(be_bytes(v as nat)) == (v >> 80u128) as nat,
{
    let bs = be_bytes(v as nat);
    let ds = bs.map_values(|b: u8| b as nat);
    assert forall|i: int| 0 <= i < 16 implies #[trigger] ds[i] == digit(v as nat, 8, 16, i as nat) by {
        lemma_be_byte(v, i as nat);
    }
    lemma_u128_fits_16_bytes(v);
    lemma_horner_prefix(v as nat, 8, 16, ds, 6);
    assert(bs.take(6).map_values(|b: u8| b as nat) =~= ds.take(6));
    lemma_u128_shr_is_div(v, 80);
    assert(8 * ((16 - 6) as nat) == 80);
}

/// A version-7 UUID carries version 7, the variant `0b10`, and the timestamp
/// modulo `2^48`.
pub proof fn lemma_uuid7_fields(ts: u64, rand: u128)
    ensures
        be_bytes(uuid7_bits(ts, rand) as nat).len() == 16,
        be_bytes(uuid7_bits(ts, rand) as nat)[6] >> 4 == 7,
        be_bytes(uuid7_bits(ts, rand) as nat)[8] >> 6 == 2,
        uuid_timestamp(be_bytes(uuid7_bits(ts, rand) as nat)) == ts as nat % 0x1_0000_0000_0000,
{
    let v = uuid7_bits(ts, rand);
    lemma_be_byte(v, 6);
    lemma_be_byte(v, 8);
    assert(((v >> 72u128) as u8) >> 4 == 7) by (bit_vector)
        requires
            v == uuid7_bits(ts, rand),
    ;
    assert(((v >> 56u128) as u8) >> 6 == 2) by (bit_vector)
        requires
            v == uuid7_bits(ts, rand),
    ;
    lemma_timestamp_of_value(v);
    assert(v >> 80u128 == (ts as u128) % 0x1_0000_0000_0000) by (bit_vector)
        requires
            v == uuid7_bits(ts, rand),
    ;
}

/// Version-7 UUIDs sort by timestamp (modulo `2^48`), then by their 74 random bits.
pub proof fn lemma_uuid7_order(ts1: u64, rand1: u128, ts2: u64, rand2: u128)
    requires
        rand1 < 0x400_0000_0000_0000_0000,
        rand2 < 0x400_0000_0000_0000_0000,
        ts1 % 0x1_0000_0000_0000 < ts2 % 0x1_0000_0000_0000 || (ts1 % 0x1_0000_0000_0000 == ts2
            % 0x1_0000_0000_0000 && rand1 < rand2),
    ensures
        bytes_precede(be_bytes(uuid7_bits(ts1, rand1) as nat), be_bytes(uuid7_bits(ts2, rand2) as nat)),
{
    let v1 = uuid7_bits(ts1, rand1);
    let v2 = uuid7_bits(ts2, rand2);
    assert(v1 < v2) by (bit_vector)
        requires
            v1 == uuid7_bits(ts1, rand1),
            v2 == uuid7_bits(ts2, rand2),
            rand1 < 0x400_0000_0000_0000_0000,
            rand2 < 0x400_0000_0000_0000_0000,
            ts1 % 0x1_0000_0000_0000 < ts2 % 0x1_0000_0000_0000 || (ts1 % 0x1_0000_0000_0000 == ts2
                % 0x1_0000_0000_0000 && rand1 < rand2),
    ;
    lemma_u128_fits_16_bytes(v2);
    lemma_value_order_digits(v1 as nat, v2 as nat, 8, 16);
    let j = choose|j: nat|
        #![trigger digit(v1 as nat, 8, 16, j)]
        j < 16 && digits_agree_before(v1 as nat, v2 as nat, 8, 16, j) && digit(v1 as nat, 8, 16, j)
            < digit(v2 as nat, 8, 16, j);
    let a = be_bytes(v1 as nat);
    let b = be_bytes(v2 as nat);
    lemma_be_byte(v1, j);
    lemma_be_byte(v2, j);
    assert forall|i: int| 0 <= i < j implies #[trigger] a[i] == b[i] by {
        lemma_be_byte(v1, i as nat);
        lemma_be_byte(v2, i as nat);
        assert(digit(v1 as nat, 8, 16, i as nat) == digit(v2 as nat, 8, 16, i as nat));
    }
    assert(a[j as int] < b[j as int]);
}

/// Two hex digits per byte.
pub proof fn lemma_hex_run_len(bs: Seq<u8>)
    ensures
        hex_run(bs).len() == 2 * bs.len(),
    decreases bs.len(),
{
    if bs.len() > 0 {
        lemma_hex_run_len(bs.drop_last());
    }
}

/// The canonical text is 36 characters long, with hyphens at positions 8, 13,
/// 18 and 23, and the version nibble as its 15th character.
pub proof fn lemma_uuid_text_shape(bs: Seq<u8>)
    requires
        bs.len() == 16,
    ensures
        uuid_text(bs).len() == 36,
        uuid_text(bs)[8] == '-',
        uuid_text(bs)[13] == '-',
        uuid_text(bs)[18] == '-',
        uuid_text(bs)[23] == '-',
        uuid_text(bs)[14] == hex_code(bs[6] as nat / 16) as char,
{
    lemma_hex_run_len(bs.subrange(0, 4));
    lemma_hex_run_len(bs.subrange(4, 6));
    lemma_hex_run_len(bs.subrange(6, 8));
    lemma_hex_run_len(bs.subrange(8, 10));
    lemma_hex_run_len(bs.subrange(10, 16));
    let third = bs.subrange(6, 8);
    assert(third.drop_last().drop_last() =~= Seq::<u8>::empty());
    assert(hex_run(third.drop_last()) =~= hex_pair(bs[6]));
    assert(hex_run(third)[0] == hex_code(bs[6] as nat / 16) as char);
}

/// Mask of the UUIDv7 random field (74 bits).
pub open spec fn uuid7_rand_mask() -> u128 {
    0x3ff_ffff_ffff_ffff_ffff
}

/// A new UUID version 7 from `clock` at wall-clock time `now_ms`. `draw`
/// supplies random bytes when a new millisecond starts. The clock's random
/// field is 74 bits wide, and the request must have room (the counter not
/// exhausted within one millisecond).
pub fn uuid7<F: FnOnce(usize) -> [u8; 16]>(clock: &mut MonotonicClock, now_ms: u64, draw: F) -> (id:
    Uuid)
    requires
        old(clock).wf(),
        old(clock).mask == uuid7_rand_mask(),
        old(clock).has_room(now_ms, false),
        draw.requires((old(clock).nbytes,)),
    ensures
        final(clock).wf(),
        final(clock).mask == uuid7_rand_mask(),
        old(clock).next_outcome(
            now_ms,
            false,
            draw,
            (final(clock).last_ms as u64, final(clock).last_rand),
            *final(clock),
        ),
        id.bytes() == be_bytes(uuid7_bits(final(clock).last_ms as u64, final(clock).last_rand) as nat),
{
    let (ts, rand) = clock.next(now_ms, false, draw);
    assemble_uuid7(ts, rand)
}

/// Like [`uuid7`], but with the timestamp pinned to `ms`, which is honored
/// verbatim (backfills, tests).
pub fn uuid7_at<F: FnOnce(usize) -> [u8; 16]>(clock: &mut MonotonicClock, ms: u64, draw: F) -> (id:
    Uuid)
    requires
        old(clock).wf(),
        old(clock).mask == uuid7_rand_mask(),
        old(clock).has_room(ms, true),
        draw.requires((old(clock).nbytes,)),
    ensures
        final(clock).wf(),
        final(clock).mask == uuid7_rand_mask(),
        old(clock).next_outcome(
            ms,
            true,
            draw,
            (final(clock).last_ms as u64, final(clock).last_rand),
            *final(clock),
        ),
        id.bytes() == be_bytes(uuid7_bits(final(clock).last_ms as u64, final(clock).last_rand) as nat),
{
    let (ts, rand) = clock.next(ms, true, draw);
    assemble_uuid7(ts, rand)
}

/// From one clock whose random field is 74 bits wide, a live request (or a
/// pinned one that does not go back in time) hands out a UUID whose bytes sort
/// strictly after the previous one's, as long as timestamps stay below `2^48`.
pub proof fn lemma_uuid7_increasing<F: FnOnce(usize) -> [u8; 16]>(
    before: MonotonicClock,
    ms: u64,
    explicit: bool,
    draw: F,
    after: MonotonicClock,
)
    requires
        before.wf(),
        after.wf(),
        before.mask == uuid7_rand_mask(),
        before.last_ms >= 0,
        !explicit || ms >= before.last_ms,
        before.next_outcome(ms, explicit, draw, (after.last_ms as u64, after.last_rand), after),
        after.last_ms < 0x1_0000_0000_0000,
    ensures
        bytes_precede(
            be_bytes(uuid7_bits(before.last_ms as u64, before.last_rand) as nat),
            be_bytes(uuid7_bits(after.last_ms as u64, after.last_rand) as nat),
        ),
{
    lemma_step_advances(before, ms, explicit, draw, (after.last_ms as u64, after.last_rand), after);
    lemma_uuid7_order(before.last_ms as u64, before.last_rand, after.last_ms as u64, after.last_rand);
}

/// Creation order over a whole run: given the states of one 74-bit clock after
/// each of its calls, each after the one before (as every live call leaves
/// it, `lemma_step_advances`), the UUID handed out by any earlier call sorts
/// strictly before the UUID of any later call, for timestamps below `2^48`.
pub proof fn lemma_uuid7_run_sorted(states: Seq<MonotonicClock>, i: int, j: int)
    requires
        0 <= i < j < states.len(),
        forall|k: int|
            0 <= k < states.len() ==> (#[trigger] states[k]).wf() && states[k].mask
                == uuid7_rand_mask() && 0 <= states[k].last_ms < 0x1_0000_0000_0000,
        forall|k: int| 0 <= k < states.len() - 1 ==> #[trigger] states[k].precedes(states[k + 1]),
    ensures
        bytes_precede(
            be_bytes(uuid7_bits(states[i].last_ms as u64, states[i].last_rand) as nat),
            be_bytes(uuid7_bits(states[j].last_ms as u64, states[j].last_rand) as nat),
        ),
{
    lemma_run_ordered(states, i, j);
    let a = states[i];
    let b = states[j];
    lemma_uuid7_order(a.last_ms as u64, a.last_rand, b.last_ms as u64, b.last_rand);
}

/// Bytes, read as base-256 digits, are in range.
proof fn lemma_bytes_in_range(bs: Seq<u8>)
    ensures
        digits_in_range(bs.map_values(|b: u8| b as nat), 8),
{
    lemma2_to64();
}

/// The timestamp is the top 48 bits of the 128-bit big-endian value.
pub proof fn lemma_timestamp_top_bits(bs: Seq<u8>)
    requires
        bs.len() == 16,
    ensures
        uuid_timestamp(bs) == be_value(bs) / pow2(80),
        uuid_timestamp(bs) < pow2(48),
{
    let ds = bs.map_values(|b: u8| b as nat);
    lemma_bytes_in_range(bs);
    lemma_digits_of_horner(ds, 8, 6);
    assert(bs.take(6).map_values(|b: u8| b as nat) =~= ds.take(6));
    assert(8 * ((16 - 6) as nat) == 80);
    assert(digits_in_range(ds.take(6), 8));
    lemma_horner_bound(ds.take(6), 8);
}

/// Any UUID with a smaller timestamp sorts first.
pub proof fn lemma_timestamp_order(a: Seq<u8>, b: Seq<u8>)
    requires
        a.len() == 16,
        b.len() == 16,
        uuid_timestamp(a) < uuid_timestamp(b),
    ensures
        bytes_precede(a, b),
{
    let da = a.take(6).map_values(|x: u8| x as nat);
    let db = b.take(6).map_values(|x: u8| x as nat);
    lemma_bytes_in_range(a.take(6));
    lemma_bytes_in_range(b.take(6));
    lemma_horner_bound(da, 8);
    lemma_horner_bound(db, 8);
    let ta = horner(da, 8);
    let tb = horner(db, 8);
    lemma_value_order_digits(ta, tb, 8, 6);
    let j = choose|j: nat|
        #![trigger digit(ta, 8, 6, j)]
        j < 6 && digits_agree_before(ta, tb, 8, 6, j) && digit(ta, 8, 6, j) < digit(tb, 8, 6, j);
    lemma_digits_of_horner(da, 8, j);
    lemma_digits_of_horner(db, 8, j);
    assert forall|i: int| 0 <= i < j implies #[trigger] a[i] == b[i] by {
        lemma_digits_of_horner(da, 8, i as nat);
        lemma_digits_of_horner(db, 8, i as nat);
        assert(digit(ta, 8, 6, i as nat) == digit(tb, 8, 6, i as nat));
    }
    assert(a[j as int] < b[j as int]);
}

/// Order on byte strings is transitive (for strings of one length).
pub proof fn lemma_bytes_precede_transitive(a: Seq<u8>, b: Seq<u8>, c: Seq<u8>)
    requires
        a.len() == b.len() == c.len(),
        bytes_precede(a, b),
        bytes_precede(b, c),
    ensures
        bytes_precede(a, c),
{
    let j1 = choose|j: int|
        #![trigger a[j], b[j]]
        0 <= j < a.len() && j < b.len() && (forall|i: int| 0 <= i < j ==> #[trigger] a[i] == b[i])
            && a[j] < b[j];
    let j2 = choose|j: int|
        #![trigger b[j], c[j]]
        0 <= j < b.len() && j < c.len() && (forall|i: int| 0 <= i < j ==> #[trigger] b[i] == c[i])
            && b[j] < c[j];
    let j = if j1 < j2 {
        j1
    } else {
        j2
    };
    assert forall|i: int| 0 <= i < j implies #[trigger] a[i] == c[i] by {
        assert(a[i] == b[i]);
        assert(b[i] == c[i]);
    }
    assert(a[j] < c[j]);
}

/// Two byte strings of one length are equal, or one sorts before the other.
pub proof fn lemma_bytes_trichotomy(a: Seq<u8>, b: Seq<u8>)
    requires
        a.len() == b.len(),
    ensures
        a == b || bytes_precede(a, b) || bytes_precede(b, a),
    decreases a.len(),
{
    let n = a.len();
    if n > 0 {
        let da = a.drop_last();
        let db = b.drop_last();
        lemma_bytes_trichotomy(da, db);
        if da == db {
            if a.last() == b.last() {
                assert forall|i: int| 0 <= i < n implies #[trigger] a[i] == b[i] by {
                    if i < n - 1 {
                        assert(da[i] == db[i]);
                    }
                }
                assert(a =~= b);
            } else {
                let j = n - 1;
                if a.last() < b.last() {
                    assert forall|i: int| 0 <= i < j implies #[trigger] a[i] == b[i] by {
                        assert(da[i] == db[i]);
                    }
                    assert(a[j] < b[j]);
                } else {
                    assert forall|i: int| 0 <= i < j implies #[trigger] b[i] == a[i] by {
                        assert(da[i] == db[i]);
                    }
                    assert(b[j] < a[j]);
                }
            }
        } else if bytes_precede(da, db) {
            let j = choose|j: int|
                #![trigger da[j], db[j]]
                0 <= j < da.len() && j < db.len() && (forall|i: int| 0 <= i < j ==> #[trigger] da[i]
                    == db[i]) && da[j] < db[j];
            assert forall|i: int| 0 <= i < j implies #[trigger] a[i] == b[i] by {
                assert(da[i] == db[i]);
            }
            assert(a[j] < b[j]);
        } else {
            let j = choose|j: int|
                #![trigger db[j], da[j]]
                0 <= j < db.len() && j < da.len() && (forall|i: int| 0 <= i < j ==> #[trigger] db[i]
                    == da[i]) && db[j] < da[j];
            assert forall|i: int| 0 <= i < j implies #[trigger] b[i] == a[i] by {
                assert(db[i] == da[i]);
            }
            assert(b[j] < a[j]);
        }
    } else {
        assert(a =~= b);
    }
}

/// The hex text of byte strings of one length sorts like the bytes.
proof fn lemma_hex_run_order(a: Seq<u8>, b: Seq<u8>)
    requires
        a.len() == b.len(),
        bytes_precede(a, b),
    ensures
        text_precedes(hex_run(a), hex_run(b)),
    decreases a.len(),
{
    let n = a.len();
    let j = choose|j: int|
        #![trigger a[j], b[j]]
        0 <= j < a.len() && j < b.len() && (forall|i: int| 0 <= i < j ==> #[trigger] a[i] == b[i])
            && a[j] < b[j];
    let da = a.drop_last();
    let db = b.drop_last();
    lemma_hex_run_len(da);
    lemma_hex_run_len(db);
    if j == n - 1 {
        assert(da =~= db) by {
            assert forall|i: int| 0 <= i < n - 1 implies #[trigger] da[i] == db[i] by {
                assert(a[i] == b[i]);
            }
        }
        let x = a.last();
        let y = b.last();
        let px = hex_pair(x);
        let py = hex_pair(y);
        if (x as nat) / 16 < (y as nat) / 16 {
            assert(px[0] < py[0]);
            assert(text_precedes(px, py));
        } else {
            assert((x as nat) / 16 == (y as nat) / 16);
            assert((x as nat) % 16 < (y as nat) % 16);
            assert(px[0] == py[0]);
            assert(px[1] < py[1]);
            assert(text_precedes(px, py));
        }
        lemma_text_precedes_after_prefix(hex_run(da), px, py);
    } else {
        assert(bytes_precede(da, db)) by {
            assert forall|i: int| 0 <= i < j implies #[trigger] da[i] == db[i] by {
                assert(a[i] == b[i]);
            }
            assert(da[j] < db[j]);
        }
        lemma_hex_run_order(da, db);
        lemma_text_precedes_before_suffix(hex_run(da), hex_run(db), hex_pair(a.last()), hex_pair(b.last()));
    }
}

/// The parts joined in order.
spec fn join(parts: Seq<Seq<char>>) -> Seq<char>
    decreases parts.len(),
{
    if parts.len() == 0 {
        Seq::empty()
    } else {
        join(parts.drop_last()) + parts.last()
    }
}

/// The parts of the canonical text: five hex groups and the hyphens between them.
spec fn text_parts(bs: Seq<u8>) -> Seq<Seq<char>> {
    seq![
        hex_run(bs.subrange(0, 4)),
        seq!['-'],
        hex_run(bs.subrange(4, 6)),
        seq!['-'],
        hex_run(bs.subrange(6, 8)),
        seq!['-'],
        hex_run(bs.subrange(8, 10)),
        seq!['-'],
        hex_run(bs.subrange(10, 16)),
    ]
}

proof fn lemma_text_is_joined_parts(bs: Seq<u8>)
    ensures
        uuid_text(bs) == join(text_parts(bs)),
{
    reveal_with_fuel(join, 10);
    let p = text_parts(bs);
    assert(p.drop_last().drop_last().drop_last().drop_last().drop_last().drop_last().drop_last().drop_last().drop_last() =~= Seq::<Seq<char>>::empty());
    assert(uuid_text(bs) =~= join(p));
}

/// Joined part lists with parts of the same lengths, equal up to a part where
/// the first sorts before the second, sort in that order.
proof fn lemma_join_order(p1: Seq<Seq<char>>, p2: Seq<Seq<char>>, g: int)
    requires
        p1.len() == p2.len(),
        0 <= g < p1.len(),
        forall|k: int| 0 <= k < p1.len() ==> (#[trigger] p1[k]).len() == p2[k].len(),
        forall|k: int| 0 <= k < g ==> #[trigger] p1[k] == p2[k],
        text_precedes(p1[g], p2[g]),
    ensures
        text_precedes(join(p1), join(p2)),
        join(p1).len() == join(p2).len(),
    decreases p1.len(),
{
    let n = p1.len();
    let d1 = p1.drop_last();
    let d2 = p2.drop_last();
    if g == n - 1 {
        lemma_join_equal(d1, d2);
        lemma_text_precedes_after_prefix(join(d1), p1[g], p2[g]);
    } else {
        lemma_join_order(d1, d2, g);
        assert(p1.last().len() == p2.last().len());
        lemma_text_precedes_before_suffix(join(d1), join(d2), p1.last(), p2.last());
    }
}

proof fn lemma_join_equal(p1: Seq<Seq<char>>, p2: Seq<Seq<char>>)
    requires
        p1.len() == p2.len(),
        forall|k: int| 0 <= k < p1.len() ==> #[trigger] p1[k] == p2[k],
    ensures
        join(p1) == join(p2),
{
    assert(p1 =~= p2);
}

/// The canonical text sorts exactly like the bytes, and different UUIDs have
/// different texts.
pub proof fn lemma_uuid_text_order(a: Seq<u8>, b: Seq<u8>)
    requires
        a.len() == 16,
        b.len() == 16,
    ensures
        bytes_precede(a, b) <==> text_precedes(uuid_text(a), uuid_text(b)),
        a == b <==> uuid_text(a) == uuid_text(b),
{
    lemma_uuid_text_forward(a, b);
    lemma_uuid_text_forward(b, a);
    lemma_bytes_trichotomy(a, b);
    lemma_text_precedes_asymmetric(uuid_text(a), uuid_text(b));
    lemma_text_precedes_asymmetric(uuid_text(a), uuid_text(a));
    lemma_text_precedes_asymmetric(uuid_text(b), uuid_text(b));
}

/// Byte strings that agree before `j` have equal hex groups before `j`.
proof fn lemma_equal_groups(a: Seq<u8>, b: Seq<u8>, j: int, lo: int, hi: int)
    requires
        a.len() == 16,
        b.len() == 16,
        0 <= lo <= hi <= 16,
        forall|i: int| 0 <= i < j ==> #[trigger] a[i] == b[i],
    ensures
        hi <= j ==> hex_run(a.subrange(lo, hi)) == hex_run(b.subrange(lo, hi)),
{
    if hi <= j {
        assert forall|i: int| 0 <= i < hi - lo implies #[trigger] a.subrange(lo, hi)[i]
            == b.subrange(lo, hi)[i] by {
            assert(a[lo + i] == b[lo + i]);
        }
        assert(a.subrange(lo, hi) =~= b.subrange(lo, hi));
    }
}

/// The hex group holding the first differing byte sorts like it.
proof fn lemma_group_order(a: Seq<u8>, b: Seq<u8>, j: int, lo: int, hi: int)
    requires
        a.len() == 16,
        b.len() == 16,
        0 <= lo <= j < hi <= 16,
        forall|i: int| 0 <= i < j ==> #[trigger] a[i] == b[i],
        a[j] < b[j],
    ensures
        text_precedes(hex_run(a.subrange(lo, hi)), hex_run(b.subrange(lo, hi))),
{
    let x = a.subrange(lo, hi);
    let y = b.subrange(lo, hi);
    let k = j - lo;
    assert forall|i: int| 0 <= i < k implies #[trigger] x[i] == y[i] by {
        assert(a[lo + i] == b[lo + i]);
    }
    assert(x[k] < y[k]);
    assert(bytes_precede(x, y));
    lemma_hex_run_order(x, y);
}

proof fn lemma_uuid_text_forward(a: Seq<u8>, b: Seq<u8>)
    requires
        a.len() == 16,
        b.len() == 16,
    ensures
        bytes_precede(a, b) ==> text_precedes(uuid_text(a), uuid_text(b)),
{
    if bytes_precede(a, b) {
        let j = choose|j: int|
            #![trigger a[j], b[j]]
            0 <= j < a.len() && j < b.len() && (forall|i: int| 0 <= i < j ==> #[trigger] a[i]
                == b[i]) && a[j] < b[j];
        let p1 = text_parts(a);
        let p2 = text_parts(b);
        let (lo, hi, g): (int, int, int) = if j < 4 {
            (0, 4, 0)
        } else if j < 6 {
            (4, 6, 2)
        } else if j < 8 {
            (6, 8, 4)
        } else if j < 10 {
            (8, 10, 6)
        } else {
            (10, 16, 8)
        };
        lemma_hex_run_len(a.subrange(0, 4));
        lemma_hex_run_len(b.subrange(0, 4));
        lemma_hex_run_len(a.subrange(4, 6));
        lemma_hex_run_len(b.subrange(4, 6));
        lemma_hex_run_len(a.subrange(6, 8));
        lemma_hex_run_len(b.subrange(6, 8));
        lemma_hex_run_len(a.subrange(8, 10));
        lemma_hex_run_len(b.subrange(8, 10));
        lemma_hex_run_len(a.subrange(10, 16));
        lemma_hex_run_len(b.subrange(10, 16));
        assert forall|k: int| 0 <= k < 9 implies (#[trigger] p1[k]).len() == p2[k].len() by {}
        lemma_equal_groups(a, b, j, 0, 4);
        lemma_equal_groups(a, b, j, 4, 6);
        lemma_equal_groups(a, b, j, 6, 8);
        lemma_equal_groups(a, b, j, 8, 10);
        assert forall|k: int| 0 <= k < g implies #[trigger] p1[k] == p2[k] by {}
        lemma_group_order(a, b, j, lo, hi);
        assert(text_precedes(p1[g], p2[g]));
        lemma_join_order(p1, p2, g);
        lemma_text_is_joined_parts(a);
        lemma_text_is_joined_parts(b);
    }
}

} // verus!
