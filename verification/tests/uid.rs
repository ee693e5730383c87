//! Tests of the Crockford codec, the monotonic clock and the public API,
//! anchored to the ULID Crockford layout and the UUIDv7 layout of RFC 9562.

use std::time::{Duration, SystemTime, UNIX_EPOCH};
use uid::crockford::{decode_crockford, encode_crockford};
use uid::uuid::assemble_uuid7;
use uid::{
    ulid, ulid_at, ulid_system_time, ulid_timestamp_ms, uuid7, uuid7_at, MonotonicClock, UlidError,
    Uuid,
};

const CROCKFORD: &str = "0123456789ABCDEFGHJKMNPQRSTVWXYZ";

fn is_crockford(s: &str) -> bool {
    s.chars().all(|c| CROCKFORD.contains(c))
}

fn now_ms() -> u64 {
    SystemTime::now()
        .duration_since(UNIX_EPOCH)
        .unwrap()
        .as_millis() as u64
}

/// A deterministic stand-in for the OS random source (xorshift64*).
struct TestRandom(u64);

impl TestRandom {
    fn block(&mut self) -> [u8; 16] {
        let mut out = [0u8; 16];
        for chunk in out.chunks_mut(8) {
            self.0 ^= self.0 << 13;
            self.0 ^= self.0 >> 7;
            self.0 ^= self.0 << 17;
            chunk.copy_from_slice(&self.0.wrapping_mul(0x2545_f491_4f6c_dd1d).to_be_bytes());
        }
        out
    }
}

fn ulid_clock() -> MonotonicClock {
    MonotonicClock::new(80)
}

fn uuid7_clock() -> MonotonicClock {
    MonotonicClock::new(74)
}

fn new_ulid(clock: &mut MonotonicClock, rng: &mut TestRandom) -> String {
    ulid(clock, now_ms(), |_n| rng.block())
}

fn new_ulid_at(clock: &mut MonotonicClock, rng: &mut TestRandom, ms: u64) -> String {
    ulid_at(clock, ms, |_n| rng.block())
}

fn new_uuid7(clock: &mut MonotonicClock, rng: &mut TestRandom) -> Uuid {
    uuid7(clock, now_ms(), |_n| rng.block())
}

fn new_uuid7_at(clock: &mut MonotonicClock, rng: &mut TestRandom, ms: u64) -> Uuid {
    uuid7_at(clock, ms, |_n| rng.block())
}

// --- Crockford codec -------------------------------------------------------

#[test]
fn encode_zero_and_roundtrip() {
    assert_eq!(encode_crockford(0), "0".repeat(26));
    assert_eq!(decode_crockford(&"0".repeat(26)).unwrap(), 0);
    for value in [0u128, 1, 1 << 80, 1 << 127, u128::MAX] {
        assert_eq!(decode_crockford(&encode_crockford(value)).unwrap(), value);
    }
}

#[test]
fn decode_rejects_bad_input() {
    assert_eq!(decode_crockford("too-short"), Err(UlidError::BadLength(9)));
    assert!(matches!(
        decode_crockford(&"U".repeat(26)),
        Err(UlidError::InvalidChar('U'))
    ));
    // Valid chars but > 128 bits (leading digit 8).
    assert_eq!(
        decode_crockford(&format!("8{}", "0".repeat(25))),
        Err(UlidError::Overflow)
    );
}

#[test]
fn decode_accepts_lowercase_and_aliases() {
    let mut clock = ulid_clock();
    let mut rng = TestRandom(0x9e37_79b9_7f4a_7c15);
    let s = new_ulid_at(&mut clock, &mut rng, 1_469_918_176_385);
    assert_eq!(
        decode_crockford(&s.to_lowercase()).unwrap(),
        decode_crockford(&s).unwrap()
    );
    assert_eq!(
        decode_crockford(&"O".repeat(26)),
        decode_crockford(&"0".repeat(26))
    );
    assert_eq!(
        decode_crockford(&"I".repeat(26)),
        decode_crockford(&"1".repeat(26))
    );
    assert_eq!(
        decode_crockford(&"L".repeat(26)),
        decode_crockford(&"1".repeat(26))
    );
}

#[test]
fn encode_uses_the_crockford_alphabet_in_order() {
    // The last 25 digits of this value are 7, 8, ..., 31.
    let mut value: u128 = 0;
    for d in 7u128..32 {
        value = (value << 5) | d;
    }
    assert_eq!(encode_crockford(value), format!("0{}", &CROCKFORD[7..]));
    let mut value: u128 = 0;
    for d in 0u128..26 {
        value = (value << 5) | (d % 8);
    }
    assert_eq!(encode_crockford(value), "01234567".repeat(4)[..26].to_string());
}

#[test]
fn decode_reports_the_first_bad_character() {
    let text = format!("0{}U{}", "1".repeat(10), "é".repeat(14));
    assert_eq!(text.chars().count(), 26);
    assert_eq!(decode_crockford(&text), Err(UlidError::InvalidChar('U')));
    let text = format!("{}é", "0".repeat(25));
    assert_eq!(decode_crockford(&text), Err(UlidError::InvalidChar('é')));
    // The overflow of the leading digit is reported before a later bad character.
    assert_eq!(
        decode_crockford(&format!("Z{}U", "0".repeat(24))),
        Err(UlidError::Overflow)
    );
    // A bad leading character is reported as such.
    assert_eq!(
        decode_crockford(&format!("U{}", "0".repeat(25))),
        Err(UlidError::InvalidChar('U'))
    );
    assert_eq!(decode_crockford(""), Err(UlidError::BadLength(0)));
    // The length is counted in characters, not bytes.
    assert_eq!(decode_crockford(&"é".repeat(13)), Err(UlidError::BadLength(13)));
    assert_eq!(
        decode_crockford(&"é".repeat(26)),
        Err(UlidError::InvalidChar('é'))
    );
    assert_eq!(
        decode_crockford(&"0".repeat(27)),
        Err(UlidError::BadLength(27))
    );
}

#[test]
fn decode_top_value() {
    assert_eq!(decode_crockford(&"7ZZZZZZZZZZZZZZZZZZZZZZZZZ").unwrap(), u128::MAX);
    assert_eq!(decode_crockford(&"7zzzzzzzzzzzzzzzzzzzzzzzzz").unwrap(), u128::MAX);
    assert_eq!(encode_crockford(u128::MAX), "7ZZZZZZZZZZZZZZZZZZZZZZZZZ");
    assert_eq!(decode_crockford(&format!("{}10", "0".repeat(24))).unwrap(), 32);
    assert_eq!(decode_crockford(&format!("{}il", "0".repeat(24))).unwrap(), 33);
}

#[test]
fn error_messages() {
    assert_eq!(
        UlidError::BadLength(9).to_string(),
        "ULID must be 26 characters, got 9"
    );
    assert_eq!(
        UlidError::BadLength(1234).to_string(),
        "ULID must be 26 characters, got 1234"
    );
    assert_eq!(
        UlidError::InvalidChar('U').to_string(),
        "invalid ULID character: 'U'"
    );
    assert_eq!(
        UlidError::InvalidChar('\n').to_string(),
        "invalid ULID character: '\\n'"
    );
    assert_eq!(UlidError::Overflow.to_string(), "ULID overflows 128 bits");
}

// --- Monotonic clock ---------------------------------------------------------

#[test]
fn ulid_monotonic_within_ms() {
    let mut clock = MonotonicClock::new(80);
    let mut rng = TestRandom(7);
    let mut prev: Option<String> = None;
    for _ in 0..1000 {
        let (_ts, rand) = clock.next(42, true, |_n| rng.block());
        let s = encode_crockford((42u128 << 80) | rand);
        if let Some(p) = &prev {
            assert!(*p < s, "ULIDs not strictly increasing within one ms");
        }
        prev = Some(s);
    }
}

#[test]
fn uuid7_monotonic_within_ms() {
    let mut clock = MonotonicClock::new(74);
    let mut rng = TestRandom(11);
    let mut prev: Option<Uuid> = None;
    for _ in 0..1000 {
        let (ts, rand) = clock.next(99, true, |_n| rng.block());
        let u = assemble_uuid7(ts, rand);
        if let Some(p) = prev {
            assert!(p < u, "UUIDv7 values not strictly increasing within one ms");
        }
        prev = Some(u);
    }
}

#[test]
fn wall_clock_backstop() {
    // Wall-clock path: a backwards wall clock must not regress the ts and
    // must increment the counter.
    let mut clock = MonotonicClock::new(80);
    let mut rng = TestRandom(13);
    clock.next(now_ms(), false, |_n| rng.block()); // seed with now()
    let future = clock.last_ms + 10_000;
    clock.last_ms = future;
    clock.last_rand = 5;
    let (ts, rand) = clock.next(now_ms(), false, |_n| rng.block()); // now() < future -> backstop
    assert_eq!(ts as i128, future, "timestamp must not regress");
    assert_eq!(rand, 6, "counter increments on regression");
}

#[test]
fn explicit_ms_is_honored_verbatim() {
    let mut clock = ulid_clock();
    let mut rng = TestRandom(17);
    assert_eq!(
        ulid_timestamp_ms(&new_ulid_at(&mut clock, &mut rng, 1000)).unwrap(),
        1000
    );
    assert_eq!(
        ulid_timestamp_ms(&new_ulid_at(&mut clock, &mut rng, 500)).unwrap(),
        500
    );
    let mut clock = uuid7_clock();
    assert_eq!(new_uuid7_at(&mut clock, &mut rng, 500).timestamp_ms(), 500);
}

#[test]
fn counter_exhaustion_is_detected() {
    let mut clock = MonotonicClock::new(4); // tiny field forces exhaustion fast
    let mut rng = TestRandom(19);
    clock.next(7, true, |_n| rng.block());
    clock.last_rand = clock.mask; // saturate
    assert!(!clock.can_advance(7, true));
    // A new millisecond, or a pinned earlier one, still has room.
    assert!(clock.can_advance(8, true));
    assert!(clock.can_advance(6, true));
    clock.last_rand = clock.mask - 1;
    assert!(clock.can_advance(7, true));
    assert_eq!(clock.next(7, true, |_n| rng.block()), (7, clock.mask));
}

#[test]
fn backstop_exhaustion_is_detected() {
    let mut clock = MonotonicClock::new(4);
    let mut rng = TestRandom(23);
    clock.next(now_ms(), false, |_n| rng.block());
    clock.last_ms += 10_000; // pretend a later ms was already seen
    clock.last_rand = clock.mask; // saturate
    assert!(!clock.can_advance(now_ms(), false));
    // A wall clock that catches up starts a fresh field.
    assert!(clock.can_advance(clock.last_ms as u64 + 1, false));
}

#[test]
fn clock_new_field_widths() {
    let c = MonotonicClock::new(80);
    assert_eq!((c.mask, c.nbytes, c.last_ms, c.last_rand), ((1 << 80) - 1, 10, -1, 0));
    let c = MonotonicClock::new(74);
    assert_eq!((c.mask, c.nbytes), ((1 << 74) - 1, 10));
    let c = MonotonicClock::new(0);
    assert_eq!((c.mask, c.nbytes), (0, 0));
    let c = MonotonicClock::new(127);
    assert_eq!((c.mask, c.nbytes), (u128::MAX >> 1, 16));
}

#[test]
fn fresh_millisecond_draws_masked_random_bits() {
    let mut clock = MonotonicClock::new(12); // two bytes, 12 bits kept
    let mut asked = None;
    let (ts, rand) = clock
        .next(5, false, |n| {
            asked = Some(n);
            let mut b = [0u8; 16];
            b[0] = 0xab;
            b[1] = 0xcd;
            b[2] = 0xef;
            b
        });
    assert_eq!(asked, Some(2));
    assert_eq!((ts, rand), (5, 0xbcd));
    // Same millisecond: counter, no draw.
    let (ts, rand) = clock.next(5, false, |_n| panic!("no draw expected"));
    assert_eq!((ts, rand), (5, 0xbce));
    // Pinned earlier millisecond: fresh draw, honored verbatim.
    let (ts, rand) = clock.next(3, true, |_n| [0u8; 16]);
    assert_eq!((ts, rand), (3, 0));
    assert_eq!((clock.last_ms, clock.last_rand), (3, 0));
}

#[test]
fn random_bits_reads_big_endian_prefix() {
    let mut buf = [0u8; 16];
    for (i, b) in buf.iter_mut().enumerate() {
        *b = (i as u8) + 1;
    }
    assert_eq!(uid::clock::random_bits(&buf, 0), 0);
    assert_eq!(uid::clock::random_bits(&buf, 3), 0x010203);
    assert_eq!(uid::clock::random_bits(&buf, 16), u128::from_be_bytes(buf));
}

// --- Public API ----------------------------------------------------------------

#[test]
fn ulid_length_and_alphabet() {
    let mut clock = ulid_clock();
    let mut rng = TestRandom(29);
    let s = new_ulid(&mut clock, &mut rng);
    assert_eq!(s.len(), 26);
    assert!(is_crockford(&s), "non-Crockford chars in {s:?}");
}

#[test]
fn ulid_first_char_fits_128_bits() {
    // 26 * 5 = 130 bits encode a 128-bit value, so the top 2 bits are 0 and the
    // first character can never exceed '7'.
    let mut clock = ulid_clock();
    let mut rng = TestRandom(31);
    for _ in 0..200 {
        assert!(new_ulid(&mut clock, &mut rng).as_bytes()[0] <= b'7');
    }
}

#[test]
fn ulid_known_timestamp_vector() {
    // Canonical ULID spec example: 1469918176385 ms -> "01ARYZ6S41".
    let mut clock = ulid_clock();
    let mut rng = TestRandom(37);
    let s = new_ulid_at(&mut clock, &mut rng, 1_469_918_176_385);
    assert_eq!(&s[..10], "01ARYZ6S41");
    assert_eq!(ulid_timestamp_ms(&s).unwrap(), 1_469_918_176_385);
}

#[test]
fn uuid7_version_and_variant() {
    let mut clock = uuid7_clock();
    let mut rng = TestRandom(41);
    let u = new_uuid7(&mut clock, &mut rng);
    assert_eq!(u.version(), 7);
    // RFC 4122 variant: the two most significant bits of byte 8 are 0b10.
    assert_eq!(u.as_bytes()[8] >> 6, 0b10);
}

#[test]
fn uuid7_timestamp_embedded() {
    let mut clock = uuid7_clock();
    let mut rng = TestRandom(43);
    let u = new_uuid7_at(&mut clock, &mut rng, 1_469_918_176_385);
    assert_eq!(u.timestamp_ms(), 1_469_918_176_385);
}

#[test]
fn uuid7_display_shape() {
    let mut clock = uuid7_clock();
    let mut rng = TestRandom(47);
    let text = new_uuid7(&mut clock, &mut rng).to_string();
    assert_eq!(text.len(), 36);
    let groups: Vec<&str> = text.split('-').collect();
    assert_eq!(
        groups.iter().map(|g| g.len()).collect::<Vec<_>>(),
        vec![8, 4, 4, 4, 12]
    );
    assert!(text.chars().all(|c| c.is_ascii_hexdigit() || c == '-'));
    // Version nibble is the 15th hex char (start of the 3rd group).
    assert_eq!(groups[2].as_bytes()[0], b'7');
}

#[test]
fn uuid_text_of_known_bytes() {
    let mut bytes = [0u8; 16];
    for (i, b) in bytes.iter_mut().enumerate() {
        *b = (i as u8) * 0x11;
    }
    let u = Uuid::from_bytes(bytes);
    assert_eq!(u.to_string(), "00112233-4455-6677-8899-aabbccddeeff");
    assert_eq!(u.as_bytes(), &bytes);
    assert_eq!(u.version(), 6);
    assert_eq!(u.timestamp_ms(), 0x0011_2233_4455);
}

#[test]
fn assemble_uuid7_layout() {
    let u = assemble_uuid7(0x0123_4567_89ab, (0xabc << 62) | 0x1234_5678_9abc_def0);
    assert_eq!(u.to_string(), "01234567-89ab-7abc-9234-56789abcdef0");
    // The timestamp is kept modulo 2^48.
    let u = assemble_uuid7(u64::MAX, 0);
    assert_eq!(u.timestamp_ms(), 0xffff_ffff_ffff);
    assert_eq!(u.to_string(), "ffffffff-ffff-7000-8000-000000000000");
}

#[test]
fn ids_are_distinct() {
    let mut rng = TestRandom(53);
    let mut clock = ulid_clock();
    assert_ne!(new_ulid(&mut clock, &mut rng), new_ulid(&mut clock, &mut rng));
    let mut clock = uuid7_clock();
    assert_ne!(new_uuid7(&mut clock, &mut rng), new_uuid7(&mut clock, &mut rng));
}

#[test]
fn live_ids_sort_by_creation_order() {
    // The core guarantee: successive live IDs strictly increase (same ms ->
    // counter increment; later ms -> larger timestamp).
    let mut clock = ulid_clock();
    let mut rng = TestRandom(59);
    let mut prev = new_ulid(&mut clock, &mut rng);
    for _ in 0..1000 {
        let next = new_ulid(&mut clock, &mut rng);
        assert!(prev < next, "live ULIDs must sort by creation order");
        prev = next;
    }
    let mut clock = uuid7_clock();
    let mut prev = new_uuid7(&mut clock, &mut rng);
    for _ in 0..1000 {
        let next = new_uuid7(&mut clock, &mut rng);
        assert!(prev < next, "live UUIDs must sort by creation order");
        prev = next;
    }
}

#[test]
fn live_ids_survive_a_backwards_clock() {
    let mut clock = ulid_clock();
    let mut rng = TestRandom(61);
    let first = ulid(&mut clock, 5_000, |_n| rng.block());
    let second = ulid(&mut clock, 4_000, |_n| rng.block());
    assert!(first < second);
    assert_eq!(ulid_timestamp_ms(&second).unwrap(), 5_000);
}

#[test]
fn ulid_and_uuid7_agree_on_time() {
    let ms = 1_700_000_000_000;
    let mut rng = TestRandom(67);
    let mut ulids = ulid_clock();
    let mut uuids = uuid7_clock();
    assert_eq!(
        ulid_timestamp_ms(&new_ulid_at(&mut ulids, &mut rng, ms)).unwrap(),
        new_uuid7_at(&mut uuids, &mut rng, ms).timestamp_ms()
    );
}

#[test]
fn timestamp_roundtrips_through_system_time() {
    let ms = 1_469_918_176_385u64;
    let mut rng = TestRandom(71);
    let mut uuids = uuid7_clock();
    let mut ulids = ulid_clock();
    assert_eq!(
        new_uuid7_at(&mut uuids, &mut rng, ms).system_time(),
        UNIX_EPOCH + Duration::from_millis(ms)
    );
    assert_eq!(
        ulid_system_time(&new_ulid_at(&mut ulids, &mut rng, ms)).unwrap(),
        UNIX_EPOCH + Duration::from_millis(ms)
    );
}

#[test]
fn ulid_timestamp_ms_rejects_bad_input() {
    assert!(ulid_timestamp_ms("too-short").is_err());
    assert!(ulid_timestamp_ms(&"U".repeat(26)).is_err());
    assert_eq!(
        ulid_system_time(&"U".repeat(26)),
        Err(UlidError::InvalidChar('U'))
    );
}

#[test]
fn timestamps_wrap_at_48_bits() {
    let mut rng = TestRandom(73);
    let mut clock = ulid_clock();
    let s = new_ulid_at(&mut clock, &mut rng, (1 << 48) + 3);
    assert_eq!(ulid_timestamp_ms(&s).unwrap(), 3);
}

#[test]
fn pinned_requests_leave_the_live_clock_alone() {
    let mut rng = TestRandom(79);
    let mut live = ulid_clock();
    let mut pinned = ulid_clock();
    let a = new_ulid(&mut live, &mut rng);
    let state = (live.last_ms, live.last_rand);
    for m in [1u64, 1 << 40, 500, 3] {
        new_ulid_at(&mut pinned, &mut rng, m);
    }
    assert_eq!((live.last_ms, live.last_rand), state);
    let b = new_ulid(&mut live, &mut rng);
    assert!(a < b);
}

#[test]
fn version_is_set() {
    assert_eq!(uid::VERSION, "0.1.0");
}

#[test]
fn decoded_text_reencodes_canonically() {
    let text = "01aryz6s41ilo0abcdefghjkmn";
    let v = decode_crockford(text).unwrap();
    assert_eq!(encode_crockford(v), "01ARYZ6S411100ABCDEFGHJKMN");
}

#[test]
fn uuid_text_sorts_like_bytes() {
    let mut a = [0u8; 16];
    let mut b = [0u8; 16];
    a[5] = 0x0f;
    b[5] = 0x10;
    let (ua, ub) = (Uuid::from_bytes(a), Uuid::from_bytes(b));
    assert!(ua < ub);
    assert!(ua.to_string() < ub.to_string());
    a[5] = 0x10;
    a[15] = 1;
    let ua = Uuid::from_bytes(a);
    assert!(ub < ua);
    assert!(ub.to_string() < ua.to_string());
}

#[test]
fn smaller_timestamp_sorts_first() {
    let mut a = [0xffu8; 16];
    a[5] = 0x00;
    let mut b = [0u8; 16];
    b[0] = 0xff;
    b[1] = 0xff;
    b[2] = 0xff;
    b[3] = 0xff;
    b[4] = 0xff;
    b[5] = 0x01;
    let (ua, ub) = (Uuid::from_bytes(a), Uuid::from_bytes(b));
    assert!(ua.timestamp_ms() < ub.timestamp_ms());
    assert!(ua < ub);
    assert_eq!(ub.timestamp_ms(), (u128::from_be_bytes(b) >> 80) as u64);
}
