//! Crockford base32: 128-bit values as 26 characters, and back.
//!
//! The alphabet is `0123456789ABCDEFGHJKMNPQRSTVWXYZ`: the digits and the
//! capital letters without `I`, `L`, `O` and `U`. Decoding also accepts lower
//! case, and reads `I`/`L` as `1` and `O` as `0`.
use crate::digits::{
    digit, digits_agree_before, digits_in_range, horner, lemma_digits_of_horner,
    lemma_horner_bound, lemma_horner_prefix, lemma_horner_split, lemma_prefix_ends,
    lemma_value_order_digits,
};
use crate::text::{all_ascii, ascii_chars, ascii_string, decimal_string, decimal_text};
use vstd::arithmetic::div_mod::*;
use vstd::arithmetic::power2::*;
use vstd::bits::*;
use vstd::prelude::*;

verus! {

/// The ASCII code of Crockford digit `d` (for `d < 32`): position `d` of
/// `0123456789ABCDEFGHJKMNPQRSTVWXYZ`.
pub open spec fn crockford_code(d: nat) -> u8 {
    if d < 10 {
        ('0' as int + d) as u8
    } else if d < 18 {
        ('A' as int + (d - 10)) as u8
    } else if d < 20 {
        ('J' as int + (d - 18)) as u8
    } else if d < 22 {
        ('M' as int + (d - 20)) as u8
    } else if d < 27 {
        ('P' as int + (d - 22)) as u8
    } else {
        ('V' as int + (d - 27)) as u8
    }
}

/// The position of an ASCII code in the alphabet, if it is there.
pub open spec fn alphabet_position(b: u8) -> Option<nat> {
    if exists|d: nat| d < 32 && #[trigger] crockford_code(d) == b {
        Some(choose|d: nat| d < 32 && #[trigger] crockford_code(d) == b)
    } else {
        None
    }
}

/// An ASCII character brought to upper case, with the aliases `I`, `L` -> `1`
/// and `O` -> `0` applied.
pub open spec fn canonical_symbol(c: char) -> u8 {
    let up: u8 = if 'a' <= c && c <= 'z' {
        (c as u32 - 32) as u8
    } else {
        c as u8
    };
    if up == 'I' as u8 || up == 'L' as u8 {
        '1' as u8
    } else if up == 'O' as u8 {
        '0' as u8
    } else {
        up
    }
}

/// The 5-bit value of one input character; `None` when it is not a Crockford symbol.
pub open spec fn crockford_digit(c: char) -> Option<nat> {
    if (c as u32) < 128 {
        alphabet_position(canonical_symbol(c))
    } else {
        None
    }
}

/// The 26-character text of `v`: its 26 base-32 digits, most significant first.
pub open spec fn crockford_text(v: nat) -> Seq<char> {
    Seq::new(26, |i: int| crockford_code(digit(v, 5, 26, i as nat)) as char)
}

/// The digit values of a run of symbols (0 where a character is not a symbol).
pub open spec fn symbol_digits(cs: Seq<char>) -> Seq<nat> {
    cs.map_values(
        |c: char|
            match crockford_digit(c) {
                Some(d) => d,
                None => 0,
            },
    )
}

/// The number that a run of symbols spells in base 32.
pub open spec fn crockford_value(cs: Seq<char>) -> nat {
    horner(symbol_digits(cs), 5)
}

/// Every character is a Crockford symbol.
pub open spec fn all_symbols(cs: Seq<char>) -> bool {
    forall|i: int| 0 <= i < cs.len() ==> (#[trigger] crockford_digit(cs[i])) is Some
}

/// `i` is the position of the first character that is not a symbol.
pub open spec fn is_first_non_symbol(cs: Seq<char>, i: int) -> bool {
    &&& 0 <= i < cs.len()
    &&& crockford_digit(cs[i]) is None
    &&& forall|j: int| 0 <= j < i ==> (#[trigger] crockford_digit(cs[j])) is Some
}

/// Error returned when parsing a ULID string.
#[derive(Debug, Clone, PartialEq, Eq, Structural)]
pub enum UlidError {
    /// The string was not exactly 26 characters (the character count is carried).
    BadLength(usize),
    /// A character was not in the Crockford base32 alphabet.
    InvalidChar(char),
    /// The 26 characters encode a value larger than 128 bits.
    Overflow,
}

/// The outcome of decoding a run of characters of the right length: a leading
/// digit above 7 overflows 128 bits; otherwise the first character that is not
/// a symbol is reported; otherwise the spelled value.
pub open spec fn decode_symbols(cs: Seq<char>) -> Result<u128, UlidError> {
    if cs.len() > 0 && (crockford_digit(cs[0]) matches Some(d) && d > 7) {
        Err(UlidError::Overflow)
    } else if !all_symbols(cs) {
        Err(UlidError::InvalidChar(cs[choose|i: int| is_first_non_symbol(cs, i)]))
    } else {
        Ok(crockford_value(cs) as u128)
    }
}

/// The outcome of decoding `text` as a ULID: it must be 26 characters long.
pub open spec fn decode_text(text: &str) -> Result<u128, UlidError> {
    if text@.len() != 26 {
        Err(UlidError::BadLength(text@.len() as usize))
    } else {
        decode_symbols(text@)
    }
}

/// Distinct digits have distinct codes, and the codes rise with the digit.
pub proof fn lemma_crockford_code_increasing(x: nat, y: nat)
    requires
        x < y < 32,
    ensures
        crockford_code(x) < crockford_code(y),
{
}

/// Each code decodes back to its digit.
pub proof fn lemma_crockford_code_decodes(d: nat)
    requires
        d < 32,
    ensures
        crockford_code(d) < 128,
        crockford_digit(crockford_code(d) as char) == Some(d),
{
    let b = crockford_code(d);
    assert(canonical_symbol(b as char) == b);
    assert forall|x: nat| x < 32 && #[trigger] crockford_code(x) == b implies x == d by {
        if x < d {
            lemma_crockford_code_increasing(x, d);
        } else if d < x {
            lemma_crockford_code_increasing(d, x);
        }
    }
}

/// The code of Crockford digit `d`.
fn crockford_byte(d: u8) -> (b: u8)
    requires
        d < 32,
    ensures
        b == crockford_code(d as nat),
        b < 128,
{
    if d < 10 {
        ('0' as u8) + d
    } else if d < 18 {
        ('A' as u8) + (d - 10)
    } else if d < 20 {
        ('J' as u8) + (d - 18)
    } else if d < 22 {
        ('M' as u8) + (d - 20)
    } else if d < 27 {
        ('P' as u8) + (d - 22)
    } else {
        ('V' as u8) + (d - 27)
    }
}

/// The position of an ASCII code in the alphabet.
fn alphabet_index(b: u8) -> (r: Option<u8>)
    ensures
        match r {
            Some(d) => alphabet_position(b) == Some(d as nat),
            None => alphabet_position(b) is None,
        },
{
    let r = if ('0' as u8) <= b && b <= ('9' as u8) {
        Some(b - ('0' as u8))
    } else if ('A' as u8) <= b && b <= ('H' as u8) {
        Some(b - ('A' as u8) + 10)
    } else if b == ('J' as u8) || b == ('K' as u8) {
        Some(b - ('J' as u8) + 18)
    } else if b == ('M' as u8) || b == ('N' as u8) {
        Some(b - ('M' as u8) + 20)
    } else if ('P' as u8) <= b && b <= ('T' as u8) {
        Some(b - ('P' as u8) + 22)
    } else if ('V' as u8) <= b && b <= ('Z' as u8) {
        Some(b - ('V' as u8) + 27)
    } else {
        None
    };
    proof {
        match r {
            Some(d) => {
                assert(crockford_code(d as nat) == b);
                let x = choose|x: nat| x < 32 && #[trigger] crockford_code(x) == b;
                if x < d {
                    lemma_crockford_code_increasing(x, d as nat);
                } else if (d as nat) < x {
                    lemma_crockford_code_increasing(d as nat, x);
                }
            },
            None => {
                assert forall|x: nat| x < 32 implies #[trigger] crockford_code(x) != b by {}
            },
        }
    }
    r
}

/// Map one input character to its 5-bit value, accepting lower case and the
/// aliases `I`/`L` -> `1` and `O` -> `0`. `U` is not in the alphabet.
pub fn decode_digit(ch: char) -> (r: Option<u8>)
    ensures
        match r {
            Some(d) => crockford_digit(ch) == Some(d as nat),
            None => crockford_digit(ch) is None,
        },
{
    let code = ch as u32;
    if code >= 128 {
        return None;
    }
    let mut up = code as u8;
    if ('a' as u8) <= up && up <= ('z' as u8) {
        up = up - 32;
    }
    let symbol = if up == ('I' as u8) || up == ('L' as u8) {
        ('1' as u8)
    } else if up == ('O' as u8) {
        ('0' as u8)
    } else {
        up
    };
    assert(symbol == canonical_symbol(ch));
    alphabet_index(symbol)
}

/// Encode a 128-bit value as 26 Crockford base32 characters, most significant first.
pub fn encode_crockford(value: u128) -> (s: String)
    ensures
        s@ == crockford_text(value as nat),
{
    let mut out: Vec<u8> = Vec::new();
    let mut i: usize = 0;
    while i < 26
        invariant
            i <= 26,
            out@.len() == i,
            all_ascii(out@),
            forall|j: int|
                0 <= j < i ==> #[trigger] out@[j] == crockford_code(
                    digit(value as nat, 5, 26, j as nat),
                ),
        decreases 26 - i,
    {
        let shift: u128 = (5 * (25 - i)) as u128;
        let group = value >> shift;
        let d = (group & 0x1f) as u8;
        proof {
            lemma_u128_shr_is_div(value, shift);
            assert(group & 0x1f == group % 32) by (bit_vector);
            lemma2_to64();
            assert(5 * ((26 - 1 - i) as nat) == shift);
            assert(d as nat == digit(value as nat, 5, 26, i as nat));
        }
        let b = crockford_byte(d);
        out.push(b);
        i = i + 1;
    }
    let s = ascii_string(out);
    assert(ascii_chars(out@) =~= crockford_text(value as nat));
    s
}

/// Decode a 26-character Crockford base32 string to a 128-bit value.
pub fn decode_crockford(text: &str) -> (res: Result<u128, UlidError>)
    ensures
        res == decode_text(text),
{
    let count = text.unicode_len();
    if count != 26 {
        return Err(UlidError::BadLength(count));
    }
    let ghost cs = text@;
    let mut value: u128 = 0;
    let mut i: usize = 0;
    while i < count
        invariant
            count == cs.len() == 26,
            cs == text@,
            i <= count,
            forall|j: int| 0 <= j < i ==> (#[trigger] crockford_digit(cs[j])) is Some,
            i > 0 ==> crockford_digit(cs[0])->0 <= 7,
            value as nat == crockford_value(cs.take(i as int)),
            i > 0 ==> crockford_value(cs.take(i as int)) < pow2((5 * i - 2) as nat),
        decreases count - i,
    {
        let ch = text.get_char(i);
        let digit = match decode_digit(ch) {
            Some(d) => d,
            None => {
                proof {
                    assert(is_first_non_symbol(cs, i as int));
                    let k = choose|k: int| is_first_non_symbol(cs, k);
                    assert(k == i);
                    if i > 0 {
                        assert(crockford_digit(cs[0]) is Some);
                    }
                }
                return Err(UlidError::InvalidChar(ch));
            },
        };
        if i == 0 && digit > 7 {
            return Err(UlidError::Overflow);
        }
        proof {
            let prev = crockford_value(cs.take(i as int));
            assert(symbol_digits(cs.take(i + 1)).drop_last() =~= symbol_digits(cs.take(i as int)));
            assert(crockford_value(cs.take(i + 1)) == prev * pow2(5) + digit);
            lemma2_to64();
            if i == 0 {
                assert(cs.take(0) =~= Seq::<char>::empty());
            } else {
                lemma_pow2_adds((5 * i - 2) as nat, 5);
                assert(prev * 32 + digit < pow2((5 * i - 2) as nat) * 32) by (nonlinear_arith)
                    requires
                        prev < pow2((5 * i - 2) as nat),
                        digit < 32,
                ;
                if 5 * i + 3 < 128 {
                    lemma_pow2_strictly_increases((5 * i + 3) as nat, 128);
                }
                lemma_pow2_adds(64, 64);
            }
        }
        value = value * 32 + digit as u128;
        i = i + 1;
    }
    proof {
        assert(all_symbols(cs));
        assert(cs.take(count as int) =~= cs);
    }
    Ok(value)
}

/// `a` sorts strictly before `b` character by character: at the first position
/// where they differ, `a` has the smaller character. (For texts of equal length
/// this is the order of `str` comparison.)
pub open spec fn text_precedes(a: Seq<char>, b: Seq<char>) -> bool {
    exists|j: int|
        #![trigger a[j], b[j]]
        0 <= j < a.len() && j < b.len() && (forall|i: int| 0 <= i < j ==> #[trigger] a[i] == b[i])
            && a[j] < b[j]
}

/// Order on texts is transitive (for texts of one length).
pub proof fn lemma_text_precedes_transitive(a: Seq<char>, b: Seq<char>, c: Seq<char>)
    requires
        a.len() == b.len() == c.len(),
        text_precedes(a, b),
        text_precedes(b, c),
    ensures
        text_precedes(a, c),
{
    let j1 = choose|j: int|
        #![trigger a[j], b[j]]
        0 <= j < a.len() && j < b.len() && (forall|i: int| 0 <= i < j ==> #[trigger] a[i] == b[i])
            && a[j] < b[j];
    let j2 = choose|j: int|
        #![trigger b[j], c[j]]
        0 <= j < b.len() && j < c.len() && (forall|i: int| 0 <= i < j ==> #[trigger] b[i] == c[i])
            && b[j] < c[j];
    let j = if j1 < j2 {
        j1
    } else {
        j2
    };
    assert forall|i: int| 0 <= i < j implies #[trigger] a[i] == c[i] by {
        assert(a[i] == b[i]);
        assert(b[i] == c[i]);
    }
    assert(a[j] < c[j]);
}

/// No text sorts before a text that sorts before it, nor before itself.
pub proof fn lemma_text_precedes_asymmetric(a: Seq<char>, b: Seq<char>)
    ensures
        !(text_precedes(a, b) && text_precedes(b, a)),
        !text_precedes(a, a),
{
    if text_precedes(a, b) && text_precedes(b, a) {
        let j1 = choose|j: int|
            #![trigger a[j], b[j]]
            0 <= j < a.len() && j < b.len() && (forall|i: int| 0 <= i < j ==> #[trigger] a[i]
                == b[i]) && a[j] < b[j];
        let j2 = choose|j: int|
            #![trigger b[j], a[j]]
            0 <= j < b.len() && j < a.len() && (forall|i: int| 0 <= i < j ==> #[trigger] b[i]
                == a[i]) && b[j] < a[j];
        if j1 < j2 {
            assert(b[j1] == a[j1]);
        } else if j2 < j1 {
            assert(a[j2] == b[j2]);
        }
    }
}

/// A common beginning keeps the order of what follows it.
pub proof fn lemma_text_precedes_after_prefix(x: Seq<char>, y1: Seq<char>, y2: Seq<char>)
    requires
        text_precedes(y1, y2),
    ensures
        text_precedes(x + y1, x + y2),
{
    let j = choose|j: int|
        #![trigger y1[j], y2[j]]
        0 <= j < y1.len() && j < y2.len() && (forall|i: int| 0 <= i < j ==> #[trigger] y1[i]
            == y2[i]) && y1[j] < y2[j];
    let a = x + y1;
    let b = x + y2;
    let k = x.len() + j;
    assert forall|i: int| 0 <= i < k implies #[trigger] a[i] == b[i] by {
        if i >= x.len() {
            assert(y1[i - x.len()] == y2[i - x.len()]);
        }
    }
    assert(a[k] == y1[j] && b[k] == y2[j]);
}

/// Whatever follows two texts of one length keeps their order.
pub proof fn lemma_text_precedes_before_suffix(
    x1: Seq<char>,
    x2: Seq<char>,
    y1: Seq<char>,
    y2: Seq<char>,
)
    requires
        x1.len() == x2.len(),
        text_precedes(x1, x2),
    ensures
        text_precedes(x1 + y1, x2 + y2),
{
    let j = choose|j: int|
        #![trigger x1[j], x2[j]]
        0 <= j < x1.len() && j < x2.len() && (forall|i: int| 0 <= i < j ==> #[trigger] x1[i]
            == x2[i]) && x1[j] < x2[j];
    let a = x1 + y1;
    let b = x2 + y2;
    assert forall|i: int| 0 <= i < j implies #[trigger] a[i] == b[i] by {
        assert(x1[i] == x2[i]);
    }
    assert(a[j] == x1[j] && b[j] == x2[j]);
}

/// Every 128-bit value is below `2^130`, the range of 26 digits of 5 bits.
pub proof fn lemma_u128_fits_26_digits(v: u128)
    ensures
        (v as nat) < pow2(5 * 26),
        (v as nat) < pow2(128),
        pow2(128) == 0x1_0000_0000_0000_0000_0000_0000_0000_0000,
{
    lemma2_to64();
    lemma_pow2_adds(64, 64);
    lemma_pow2_strictly_increases(128, 130);
}

/// The text of `v` is made of Crockford symbols whose digits are the base-32 digits of `v`.
pub proof fn lemma_text_digits(v: u128)
    ensures
        crockford_text(v as nat).len() == 26,
        all_symbols(crockford_text(v as nat)),
        forall|i: int|
            0 <= i < 26 ==> #[trigger] crockford_digit(crockford_text(v as nat)[i]) == Some(
                digit(v as nat, 5, 26, i as nat),
            ),
{
    lemma2_to64();
    assert forall|i: int| 0 <= i < 26 implies #[trigger] crockford_digit(
        crockford_text(v as nat)[i],
    ) == Some(digit(v as nat, 5, 26, i as nat)) by {
        lemma_crockford_code_decodes(digit(v as nat, 5, 26, i as nat));
    }
}

/// Decoding the encoding of a value gives the value back; the encoding starts
/// with a digit of at most 7.
pub proof fn lemma_decode_encode(v: u128)
    ensures
        decode_symbols(crockford_text(v as nat)) == Ok::<u128, UlidError>(v),
        crockford_digit(crockford_text(v as nat)[0]) matches Some(d) && d <= 7,
        crockford_text(v as nat)[0] <= '7',
{
    let text = crockford_text(v as nat);
    lemma_text_digits(v);
    lemma_u128_fits_26_digits(v);
    let ds = symbol_digits(text);
    lemma2_to64();
    assert forall|i: int| 0 <= i < 26 implies #[trigger] ds[i] == digit(v as nat, 5, 26, i as nat) by {
        assert(crockford_digit(text[i]) == Some(digit(v as nat, 5, 26, i as nat)));
    }
    lemma_horner_prefix(v as nat, 5, 26, ds, 26);
    lemma_prefix_ends(v as nat, 5, 26);
    assert(ds.take(26) =~= ds);
    // the leading digit holds the top 3 bits only
    lemma_pow2_adds(125, 3);
    lemma_pow2_pos(125);
    assert(pow2(3) == 8);
    lemma_multiply_divide_lt(v as int, pow2(125) as int, 8);
    assert(5 * ((26 - 1 - 0) as nat) == 125);
    lemma_small_mod((v as nat / pow2(125)) as nat, 32);
}

/// Decoding any string whose characters are the encoding of `v` gives `v`.
pub proof fn lemma_decode_text_of_encoding(text: &str, v: u128)
    requires
        text@ == crockford_text(v as nat),
    ensures
        decode_text(text) == Ok::<u128, UlidError>(v),
{
    lemma_decode_encode(v);
}

/// Encoding preserves order: a smaller value has a text that sorts first.
pub proof fn lemma_encode_order(v1: u128, v2: u128)
    requires
        v1 < v2,
    ensures
        text_precedes(crockford_text(v1 as nat), crockford_text(v2 as nat)),
{
    lemma_u128_fits_26_digits(v2);
    lemma_value_order_digits(v1 as nat, v2 as nat, 5, 26);
    let j = choose|j: nat|
        #![trigger digit(v1 as nat, 5, 26, j)]
        j < 26 && digits_agree_before(v1 as nat, v2 as nat, 5, 26, j) && digit(v1 as nat, 5, 26, j)
            < digit(v2 as nat, 5, 26, j);
    let a = crockford_text(v1 as nat);
    let b = crockford_text(v2 as nat);
    lemma2_to64();
    lemma_crockford_code_increasing(digit(v1 as nat, 5, 26, j), digit(v2 as nat, 5, 26, j));
    assert forall|i: int| 0 <= i < j implies #[trigger] a[i] == b[i] by {
        assert(digit(v1 as nat, 5, 26, i as nat) == digit(v2 as nat, 5, 26, i as nat));
    }
    assert(a[j as int] < b[j as int]);
}

/// Decoding reads lower case like upper case, `I` and `L` like `1`, and `O` like
/// `0`: two texts of symbols with the same digit at every position decode alike.
pub proof fn lemma_decode_same_digits(t1: &str, t2: &str)
    requires
        t1@.len() == t2@.len(),
        all_symbols(t1@),
        forall|i: int| 0 <= i < t1@.len() ==> #[trigger] crockford_digit(t1@[i]) == crockford_digit(t2@[i]),
    ensures
        decode_text(t1) == decode_text(t2),
{
    assert forall|i: int| 0 <= i < t2@.len() implies (#[trigger] crockford_digit(t2@[i])) is Some by {
        assert(crockford_digit(t1@[i]) == crockford_digit(t2@[i]));
    }
    assert(symbol_digits(t1@) =~= symbol_digits(t2@));
}

/// The alphabet, written out: digit `d` is spelled by character `d` of
/// `0123456789ABCDEFGHJKMNPQRSTVWXYZ`, and that character, in either case,
/// decodes to `d`. The aliases `I`, `L` read as 1 and `O` as 0.
pub proof fn lemma_alphabet(d: nat)
    requires
        d < 32,
    ensures
        crockford_code(d) as char == "0123456789ABCDEFGHJKMNPQRSTVWXYZ"@[d as int],
        crockford_digit("0123456789ABCDEFGHJKMNPQRSTVWXYZ"@[d as int]) == Some(d),
        crockford_digit(ascii_lower("0123456789ABCDEFGHJKMNPQRSTVWXYZ"@[d as int])) == Some(d),
        crockford_digit('I') == Some(1nat),
        crockford_digit('i') == Some(1nat),
        crockford_digit('L') == Some(1nat),
        crockford_digit('l') == Some(1nat),
        crockford_digit('O') == Some(0nat),
        crockford_digit('o') == Some(0nat),
        crockford_digit('U') is None,
        crockford_digit('u') is None,
{
    reveal_strlit("0123456789ABCDEFGHJKMNPQRSTVWXYZ");
    if d == 0 {
        assert(crockford_code(d) as char == '0');
    } else if d == 1 {
        assert(crockford_code(d) as char == '1');
    } else if d == 2 {
        assert(crockford_code(d) as char == '2');
    } else if d == 3 {
        assert(crockford_code(d) as char == '3');
    } else if d == 4 {
        assert(crockford_code(d) as char == '4');
    } else if d == 5 {
        assert(crockford_code(d) as char == '5');
    } else if d == 6 {
        assert(crockford_code(d) as char == '6');
    } else if d == 7 {
        assert(crockford_code(d) as char == '7');
    } else if d == 8 {
        assert(crockford_code(d) as char == '8');
    } else if d == 9 {
        assert(crockford_code(d) as char == '9');
    } else if d == 10 {
        assert(crockford_code(d) as char == 'A');
    } else if d == 11 {
        assert(crockford_code(d) as char == 'B');
    } else if d == 12 {
        assert(crockford_code(d) as char == 'C');
    } else if d == 13 {
        assert(crockford_code(d) as char == 'D');
    } else if d == 14 {
        assert(crockford_code(d) as char == 'E');
    } else if d == 15 {
        assert(crockford_code(d) as char == 'F');
    } else if d == 16 {
        assert(crockford_code(d) as char == 'G');
    } else if d == 17 {
        assert(crockford_code(d) as char == 'H');
    } else if d == 18 {
        assert(crockford_code(d) as char == 'J');
    } else if d == 19 {
        assert(crockford_code(d) as char == 'K');
    } else if d == 20 {
        assert(crockford_code(d) as char == 'M');
    } else if d == 21 {
        assert(crockford_code(d) as char == 'N');
    } else if d == 22 {
        assert(crockford_code(d) as char == 'P');
    } else if d == 23 {
        assert(crockford_code(d) as char == 'Q');
    } else if d == 24 {
        assert(crockford_code(d) as char == 'R');
    } else if d == 25 {
        assert(crockford_code(d) as char == 'S');
    } else if d == 26 {
        assert(crockford_code(d) as char == 'T');
    } else if d == 27 {
        assert(crockford_code(d) as char == 'V');
    } else if d == 28 {
        assert(crockford_code(d) as char == 'W');
    } else if d == 29 {
        assert(crockford_code(d) as char == 'X');
    } else if d == 30 {
        assert(crockford_code(d) as char == 'Y');
    } else if d == 31 {
        assert(crockford_code(d) as char == 'Z');
    }
    lemma_crockford_code_decodes(d);
    lemma_crockford_code_decodes(1);
    lemma_crockford_code_decodes(0);
    let c = crockford_code(d) as char;
    lemma_digit_case_insensitive(ascii_lower(c));
    assert(ascii_upper(ascii_lower(c)) == c);
    assert forall|x: nat| x < 32 implies #[trigger] crockford_code(x) != ('U' as u8) by {}
}

/// The ASCII lower case of a character; other characters are unchanged.
pub open spec fn ascii_lower(c: char) -> char {
    if 'A' <= c && c <= 'Z' {
        ((c as u32) + 32) as char
    } else {
        c
    }
}

/// The ASCII upper case of a character; other characters are unchanged.
pub open spec fn ascii_upper(c: char) -> char {
    if 'a' <= c && c <= 'z' {
        ((c as u32) - 32) as char
    } else {
        c
    }
}

/// A text with every ASCII lower-case letter made upper case.
pub open spec fn ascii_upper_text(cs: Seq<char>) -> Seq<char> {
    cs.map_values(|c: char| ascii_upper(c))
}

/// Decoding a character ignores its case: every character has the digit of
/// its ASCII upper case.
pub proof fn lemma_digit_case_insensitive(c: char)
    ensures
        crockford_digit(c) == crockford_digit(ascii_upper(c)),
{
    if 'a' <= c && c <= 'z' {
        let u = ascii_upper(c);
        assert((u as u32) == (c as u32) - 32);
        assert(canonical_symbol(c) == canonical_symbol(u));
    }
}

/// Runs of characters with the same digit at every position, the second made of
/// symbols, decode alike.
pub proof fn lemma_decode_symbols_same_digits(c1: Seq<char>, c2: Seq<char>)
    requires
        c1.len() == c2.len(),
        all_symbols(c2),
        forall|i: int| 0 <= i < c1.len() ==> #[trigger] crockford_digit(c1[i]) == crockford_digit(c2[i]),
    ensures
        decode_symbols(c1) == decode_symbols(c2),
        all_symbols(c1),
{
    assert forall|i: int| 0 <= i < c1.len() implies (#[trigger] crockford_digit(c1[i])) is Some by {
        assert(crockford_digit(c1[i]) == crockford_digit(c2[i]));
    }
    assert(symbol_digits(c1) =~= symbol_digits(c2));
}

/// Decoding ignores case: a text decodes exactly when its ASCII upper case
/// does, and then to the same value.
pub proof fn lemma_decode_case_insensitive(t1: &str, t2: &str)
    requires
        t2@ == ascii_upper_text(t1@),
    ensures
        decode_text(t1) is Ok <==> decode_text(t2) is Ok,
        decode_text(t2) matches Ok(v) ==> decode_text(t1) == Ok::<u128, UlidError>(v),
{
    let c1 = t1@;
    let c2 = t2@;
    assert forall|i: int| 0 <= i < c1.len() implies #[trigger] crockford_digit(c1[i])
        == crockford_digit(c2[i]) by {
        lemma_digit_case_insensitive(c1[i]);
    }
    if all_symbols(c2) {
        lemma_decode_symbols_same_digits(c1, c2);
    } else {
        let k = choose|k: int| 0 <= k < c2.len() && (#[trigger] crockford_digit(c2[k])) is None;
        assert(crockford_digit(c1[k]) is None);
        assert(!all_symbols(c1));
        if c1.len() > 0 {
            assert(crockford_digit(c1[0]) == crockford_digit(c2[0]));
        }
    }
}

/// Names the text that `char`'s `Debug` formatting gives for `c` (quoted and
/// escaped, as in `'U'` or `'\\n'`).
pub uninterp spec fn char_debug_text(c: char) -> Seq<char>;

/// `format!("{:?}", c)`: `char`'s `Debug` formatting. Its result is taken to be
/// `char_debug_text(c)`, a function of `c` alone; the escaping rules themselves
/// are not stated.
#[verifier::external_body]
fn debug_char(c: char) -> (s: String)
    ensures
        s@ == char_debug_text(c),
{
    format!("{:?}", c)
}

/// The message that describes a ULID parsing error.
pub open spec fn error_message(e: UlidError) -> Seq<char> {
    match e {
        UlidError::BadLength(n) => "ULID must be 26 characters, got "@ + decimal_text(n as nat),
        UlidError::InvalidChar(c) => "invalid ULID character: "@ + char_debug_text(c),
        UlidError::Overflow => "ULID overflows 128 bits"@,
    }
}

impl UlidError {
    /// The message that describes this error.
    pub fn to_string(&self) -> (s: String)
        ensures
            s@ == error_message(*self),
    {
        match self {
            UlidError::BadLength(n) => {
                let mut s = String::from_str("ULID must be 26 characters, got ");
                let digits = decimal_string(*n);
                s.append(digits.as_str());
                s
            },
            UlidError::InvalidChar(c) => {
                let mut s = String::from_str("invalid ULID character: ");
                let shown = debug_char(*c);
                s.append(shown.as_str());
                s
            },
            UlidError::Overflow => String::from_str("ULID overflows 128 bits"),
        }
    }
}

/// The canonical spelling of a run of symbols: each character replaced by the
/// alphabet's character for its digit (upper case, `I`/`L` as `1`, `O` as `0`).
pub open spec fn canonical_text(cs: Seq<char>) -> Seq<char> {
    Seq::new(cs.len(), |i: int| crockford_code(symbol_digits(cs)[i]) as char)
}

/// A symbol's digit is below 32.
proof fn lemma_symbol_digits_in_range(cs: Seq<char>)
    requires
        all_symbols(cs),
    ensures
        digits_in_range(symbol_digits(cs), 5),
{
    lemma2_to64();
    assert forall|i: int| 0 <= i < symbol_digits(cs).len() implies #[trigger] symbol_digits(cs)[i]
        < pow2(5) by {
        assert(crockford_digit(cs[i]) is Some);
    }
}

/// A text that decodes re-encodes to its canonical spelling.
pub proof fn lemma_reencode_canonical(text: &str, v: u128)
    requires
        decode_text(text) == Ok::<u128, UlidError>(v),
    ensures
        crockford_text(v as nat) == canonical_text(text@),
{
    let cs = text@;
    let ds = symbol_digits(cs);
    assert(cs.len() == 26);
    assert(all_symbols(cs));
    lemma_symbol_digits_in_range(cs);
    // the spelled value fits 128 bits, so the decoded value is it
    lemma_horner_split(ds, 5, 1);
    assert(digits_in_range(ds.skip(1), 5));
    lemma_horner_bound(ds.skip(1), 5);
    assert(ds.take(1).drop_last() =~= Seq::<nat>::empty());
    assert(horner(Seq::<nat>::empty(), 5) == 0);
    assert(ds.take(1).last() == ds[0]);
    assert(horner(ds.take(1), 5) == horner(ds.take(1).drop_last(), 5) * pow2(5) + ds[0]);
    assert(horner(ds.take(1), 5) == ds[0]);
    assert(crockford_digit(cs[0]) is Some);
    assert(ds[0] <= 7);
    lemma_pow2_adds(125, 3);
    lemma2_to64();
    lemma_u128_fits_26_digits(0);
    assert(5 * ((26 - 1) as nat) == 125);
    assert(ds[0] * pow2(125) + horner(ds.skip(1), 5) < pow2(128)) by (nonlinear_arith)
        requires
            ds[0] <= 7,
            horner(ds.skip(1), 5) < pow2(125),
            pow2(128) == pow2(125) * pow2(3),
            pow2(3) == 8,
    ;
    assert(v as nat == horner(ds, 5));
    assert forall|i: int| 0 <= i < 26 implies #[trigger] crockford_text(v as nat)[i]
        == canonical_text(cs)[i] by {
        lemma_digits_of_horner(ds, 5, i as nat);
    }
    assert(crockford_text(v as nat) =~= canonical_text(cs));
}

} // verus!
