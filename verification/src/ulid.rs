//! ULIDs: a 48-bit millisecond timestamp above 80 random bits, written as 26
//! Crockford base32 characters.
use crate::clock::{lemma_run_ordered, lemma_step_advances, MonotonicClock};
use crate::crockford::{
    ascii_upper_text, crockford_digit, lemma_decode_encode, lemma_decode_symbols_same_digits,
    lemma_digit_case_insensitive, lemma_text_digits,
    crockford_text, decode_crockford, decode_text, encode_crockford, lemma_decode_text_of_encoding,
    lemma_encode_order, text_precedes, UlidError,
};
use crate::uuid::{be_bytes, lemma_uuid7_fields, uuid7_bits, uuid_timestamp};
use crate::time::{epoch_millis_time, time_after_epoch};
use std::time::SystemTime;
use vstd::prelude::*;

verus! {

/// Mask of the ULID random field (80 bits).
pub open spec fn ulid_rand_mask() -> u128 {
    0xffff_ffff_ffff_ffff_ffff
}

/// The 128-bit ULID layout: the timestamp (modulo `2^48`) above the 80-bit random field.
pub open spec fn ulid_bits(ts: u64, rand: u128) -> u128 {
    ((ts as u128 & 0xffff_ffff_ffff) << 80u128) | rand
}

/// The text of the ULID for timestamp `ts` and random field `rand`.
pub open spec fn ulid_text(ts: u64, rand: u128) -> Seq<char> {
    crockford_text(ulid_bits(ts, rand) as nat)
}

/// What reading the timestamp of `text` gives: the top 48 bits of the decoded value.
pub open spec fn timestamp_of(text: &str) -> Result<u64, UlidError> {
    match decode_text(text) {
        Ok(v) => Ok((v >> 80u128) as u64),
        Err(e) => Err(e),
    }
}

/// The ULID text for a timestamp and random field.
fn encode_ulid(ts: u64, rand: u128) -> (s: String)
    ensures
        s@ == ulid_text(ts, rand),
{
    encode_crockford(((ts as u128 & 0xffff_ffff_ffff) << 80) | rand)
}

/// A new ULID from `clock` at wall-clock time `now_ms`, as a 26-character
/// uppercase Crockford base32 string. `draw` supplies random bytes when a new
/// millisecond starts. The clock's random field is 80 bits wide, and the
/// request must have room (the counter not exhausted within one millisecond).
pub fn ulid<F: FnOnce(usize) -> [u8; 16]>(clock: &mut MonotonicClock, now_ms: u64, draw: F) -> (id:
    String)
    requires
        old(clock).wf(),
        old(clock).mask == ulid_rand_mask(),
        old(clock).has_room(now_ms, false),
        draw.requires((old(clock).nbytes,)),
    ensures
        final(clock).wf(),
        final(clock).mask == ulid_rand_mask(),
        old(clock).next_outcome(
            now_ms,
            false,
            draw,
            (final(clock).last_ms as u64, final(clock).last_rand),
            *final(clock),
        ),
        id@ == ulid_text(final(clock).last_ms as u64, final(clock).last_rand),
{
    let (ts, rand) = clock.next(now_ms, false, draw);
    encode_ulid(ts, rand)
}

/// Like [`ulid`], but with the timestamp pinned to `ms`, which is honored
/// verbatim (backfills, tests).
pub fn ulid_at<F: FnOnce(usize) -> [u8; 16]>(clock: &mut MonotonicClock, ms: u64, draw: F) -> (id:
    String)
    requires
        old(clock).wf(),
        old(clock).mask == ulid_rand_mask(),
        old(clock).has_room(ms, true),
        draw.requires((old(clock).nbytes,)),
    ensures
        final(clock).wf(),
        final(clock).mask == ulid_rand_mask(),
        old(clock).next_outcome(
            ms,
            true,
            draw,
            (final(clock).last_ms as u64, final(clock).last_rand),
            *final(clock),
        ),
        id@ == ulid_text(final(clock).last_ms as u64, final(clock).last_rand),
{
    let (ts, rand) = clock.next(ms, true, draw);
    encode_ulid(ts, rand)
}

/// The 48-bit millisecond Unix timestamp embedded in a ULID string.
pub fn ulid_timestamp_ms(ulid: &str) -> (res: Result<u64, UlidError>)
    ensures
        res == timestamp_of(ulid),
{
    match decode_crockford(ulid) {
        Ok(value) => Ok((value >> 80) as u64),
        Err(e) => Err(e),
    }
}

/// The timestamp embedded in a ULID string, as a point in time.
pub fn ulid_system_time(ulid: &str) -> (res: Result<SystemTime, UlidError>)
    ensures
        match timestamp_of(ulid) {
            Ok(ms) => res == Ok::<SystemTime, UlidError>(epoch_millis_time(ms)),
            Err(e) => res == Err::<SystemTime, UlidError>(e),
        },
{
    match ulid_timestamp_ms(ulid) {
        Ok(ms) => {
            assert(ms < 0x1_0000_0000_0000) by {
                let v = decode_text(ulid)->Ok_0;
                assert((v >> 80u128) < 0x1_0000_0000_0000) by (bit_vector);
            }
            Ok(time_after_epoch(ms))
        },
        Err(e) => Err(e),
    }
}

/// Reading back the timestamp of a ULID gives the timestamp it was made with
/// (modulo `2^48`).
pub proof fn lemma_ulid_timestamp_roundtrip(text: &str, ts: u64, rand: u128)
    requires
        rand <= ulid_rand_mask(),
        text@ == ulid_text(ts, rand),
    ensures
        decode_text(text) == Ok::<u128, UlidError>(ulid_bits(ts, rand)),
        timestamp_of(text) == Ok::<u64, UlidError>((ts % 0x1_0000_0000_0000) as u64),
{
    lemma_decode_text_of_encoding(text, ulid_bits(ts, rand));
    let v = ulid_bits(ts, rand);
    assert((v >> 80u128) as u64 == ts % 0x1_0000_0000_0000) by (bit_vector)
        requires
            v == ulid_bits(ts, rand),
            rand <= 0xffff_ffff_ffff_ffff_ffff,
    ;
}

/// Reading a ULID's timestamp ignores case: a text whose ASCII upper case is
/// the ULID for `ts` and `rand` reads back `ts` (modulo `2^48`).
pub proof fn lemma_timestamp_case_insensitive(text: &str, ts: u64, rand: u128)
    requires
        rand <= ulid_rand_mask(),
        ascii_upper_text(text@) == ulid_text(ts, rand),
    ensures
        decode_text(text) == Ok::<u128, UlidError>(ulid_bits(ts, rand)),
        timestamp_of(text) == Ok::<u64, UlidError>((ts % 0x1_0000_0000_0000) as u64),
{
    let v = ulid_bits(ts, rand);
    let up = ascii_upper_text(text@);
    lemma_decode_encode(v);
    lemma_text_digits(v);
    assert(up.len() == 26);
    assert forall|i: int| 0 <= i < text@.len() implies #[trigger] crockford_digit(text@[i])
        == crockford_digit(up[i]) by {
        lemma_digit_case_insensitive(text@[i]);
    }
    lemma_decode_symbols_same_digits(text@, up);
    assert((v >> 80u128) as u64 == ts % 0x1_0000_0000_0000) by (bit_vector)
        requires
            v == ulid_bits(ts, rand),
            rand <= 0xffff_ffff_ffff_ffff_ffff,
    ;
}

/// ULIDs sort by timestamp, then by random field (for timestamps below
/// `2^48`, the year 10889).
pub proof fn lemma_ulid_order(ts1: u64, rand1: u128, ts2: u64, rand2: u128)
    requires
        rand1 <= ulid_rand_mask(),
        rand2 <= ulid_rand_mask(),
        ts2 < 0x1_0000_0000_0000,
        ts1 < ts2 || (ts1 == ts2 && rand1 < rand2),
    ensures
        text_precedes(ulid_text(ts1, rand1), ulid_text(ts2, rand2)),
{
    assert(ulid_bits(ts1, rand1) < ulid_bits(ts2, rand2)) by (bit_vector)
        requires
            rand1 <= 0xffff_ffff_ffff_ffff_ffff,
            rand2 <= 0xffff_ffff_ffff_ffff_ffff,
            ts2 < 0x1_0000_0000_0000,
            ts1 < ts2 || (ts1 == ts2 && rand1 < rand2),
    ;
    lemma_encode_order(ulid_bits(ts1, rand1), ulid_bits(ts2, rand2));
}

/// From one clock whose random field is 80 bits wide, a live request (or a
/// pinned one that does not go back in time) hands out a ULID that sorts
/// strictly after the previous one, as long as timestamps stay below `2^48`.
pub proof fn lemma_ulid_increasing<F: FnOnce(usize) -> [u8; 16]>(
    before: MonotonicClock,
    ms: u64,
    explicit: bool,
    draw: F,
    after: MonotonicClock,
)
    requires
        before.wf(),
        after.wf(),
        before.mask == ulid_rand_mask(),
        before.last_ms >= 0,
        !explicit || ms >= before.last_ms,
        before.next_outcome(ms, explicit, draw, (after.last_ms as u64, after.last_rand), after),
        after.last_ms < 0x1_0000_0000_0000,
    ensures
        text_precedes(
            ulid_text(before.last_ms as u64, before.last_rand),
            ulid_text(after.last_ms as u64, after.last_rand),
        ),
{
    lemma_step_advances(before, ms, explicit, draw, (after.last_ms as u64, after.last_rand), after);
    lemma_ulid_order(before.last_ms as u64, before.last_rand, after.last_ms as u64, after.last_rand);
}

/// Creation order over a whole run: given the states of one 80-bit clock after
/// each of its calls, each after the one before (as every live call leaves
/// it, `lemma_step_advances`), the ULID handed out by any earlier call sorts
/// strictly before the ULID of any later call, for timestamps below `2^48`.
pub proof fn lemma_ulid_run_sorted(states: Seq<MonotonicClock>, i: int, j: int)
    requires
        0 <= i < j < states.len(),
        forall|k: int|
            0 <= k < states.len() ==> (#[trigger] states[k]).wf() && states[k].mask
                == ulid_rand_mask() && 0 <= states[k].last_ms < 0x1_0000_0000_0000,
        forall|k: int| 0 <= k < states.len() - 1 ==> #[trigger] states[k].precedes(states[k + 1]),
    ensures
        text_precedes(
            ulid_text(states[i].last_ms as u64, states[i].last_rand),
            ulid_text(states[j].last_ms as u64, states[j].last_rand),
        ),
{
    lemma_run_ordered(states, i, j);
    let a = states[i];
    let b = states[j];
    lemma_ulid_order(a.last_ms as u64, a.last_rand, b.last_ms as u64, b.last_rand);
}

/// A ULID and a version-7 UUID made at the same millisecond carry the same
/// timestamp, whatever their random fields.
pub proof fn lemma_ulid_uuid7_agree_on_time(text: &str, ts: u64, ulid_rand: u128, uuid_rand: u128)
    requires
        ulid_rand <= ulid_rand_mask(),
        text@ == ulid_text(ts, ulid_rand),
    ensures
        timestamp_of(text) == Ok::<u64, UlidError>(
            uuid_timestamp(be_bytes(uuid7_bits(ts, uuid_rand) as nat)) as u64,
        ),
{
    lemma_ulid_timestamp_roundtrip(text, ts, ulid_rand);
    lemma_uuid7_fields(ts, uuid_rand);
}

} // verus!
