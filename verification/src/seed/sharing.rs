//! Short, human-friendly share codes for seeds: base-62 numerals over the
//! alphabet `0-9`, `A-Z`, `a-z`, most significant digit first.
use vstd::prelude::*;
use vstd::string::StringSliceAdditionalSpecFns;

verus! {

/// The byte that stands for digit `d` (`0-9`, then `A-Z`, then `a-z`).
pub open spec fn digit_byte(d: nat) -> u8 {
    if d < 10 {
        (48 + d) as u8
    } else if d < 36 {
        (65 + (d - 10)) as u8
    } else {
        (97 + (d - 36)) as u8
    }
}

/// Whether byte `b` is one of the 62 alphabet symbols.
pub open spec fn is_digit_byte(b: u8) -> bool {
    (48 <= b <= 57) || (65 <= b <= 90) || (97 <= b <= 122)
}

/// The digit that byte `b` stands for (meaningful when `is_digit_byte(b)`).
pub open spec fn digit_value(b: u8) -> nat {
    if 48 <= b <= 57 {
        (b - 48) as nat
    } else if 65 <= b <= 90 {
        (b - 65 + 10) as nat
    } else {
        (b - 97 + 36) as nat
    }
}

/// Every byte of `s` is an alphabet symbol.
pub open spec fn all_digits(s: Seq<u8>) -> bool {
    forall|i: int| 0 <= i < s.len() ==> #[trigger] is_digit_byte(s[i])
}

/// The number that the numeral `s` denotes, most significant digit first.
pub open spec fn numeral_value(s: Seq<u8>) -> nat
    decreases s.len(),
{
    if s.len() == 0 {
        0
    } else {
        numeral_value(s.drop_last()) * 62 + digit_value(s.last())
    }
}

/// The shortest numeral for `v`: no leading zero, and `"0"` for zero.
pub open spec fn numeral_of(v: nat) -> Seq<u8>
    decreases v,
{
    if v < 62 {
        seq![digit_byte(v)]
    } else {
        numeral_of(v / 62).push(digit_byte(v % 62))
    }
}

/// The share code of `v` as characters.
pub open spec fn code_chars(v: nat) -> Seq<char> {
    numeral_of(v).map_values(|b: u8| b as char)
}

/// What `decode` gives for the bytes `s`: the value when `s` is a non-empty
/// numeral whose value fits in a `u64`, nothing otherwise.
pub open spec fn decoded(s: Seq<u8>) -> Option<u64> {
    if s.len() > 0 && all_digits(s) && numeral_value(s) <= u64::MAX {
        Some(numeral_value(s) as u64)
    } else {
        None
    }
}

proof fn lemma_digit_roundtrip(d: nat)
    requires
        d < 62,
    ensures
        is_digit_byte(digit_byte(d)),
        digit_value(digit_byte(d)) == d,
        digit_byte(d) < 128,
{
}

/// A numeral is made of alphabet symbols, is never empty, and denotes `v`.
pub proof fn lemma_numeral_of(v: nat)
    ensures
        numeral_of(v).len() > 0,
        all_digits(numeral_of(v)),
        numeral_value(numeral_of(v)) == v,
        forall|i: int| 0 <= i < numeral_of(v).len() ==> #[trigger] numeral_of(v)[i] < 128,
    decreases v,
{
    if v < 62 {
        lemma_digit_roundtrip(v);
        assert(numeral_of(v).drop_last() =~= Seq::<u8>::empty());
        assert(numeral_value(Seq::<u8>::empty()) == 0);
    } else {
        lemma_numeral_of(v / 62);
        lemma_digit_roundtrip(v % 62);
        let s = numeral_of(v);
        assert(s.drop_last() =~= numeral_of(v / 62));
        assert(s.last() == digit_byte(v % 62));
        assert(v == (v / 62) * 62 + v % 62);
        assert(numeral_value(s) == numeral_value(numeral_of(v / 62)) * 62 + digit_value(
            digit_byte(v % 62),
        ));
    }
}

/// A longer numeral never denotes less than its prefix.
proof fn lemma_prefix_value_le(s: Seq<u8>, k: int)
    requires
        0 <= k <= s.len(),
    ensures
        numeral_value(s.take(k)) <= numeral_value(s),
    decreases s.len(),
{
    if k < s.len() {
        lemma_prefix_value_le(s.drop_last(), k);
        assert(s.drop_last().take(k) =~= s.take(k));
    } else {
        assert(s.take(k) =~= s);
    }
}

/// Decoding the bytes of a share code gives back the value it was made from.
pub proof fn lemma_decode_encode(v: u64)
    ensures
        decoded(numeral_of(v as nat)) == Some(v),
{
    lemma_numeral_of(v as nat);
}

/// The bytes that a code's characters are written with in UTF-8 are its
/// numeral bytes: every symbol is ASCII.
pub proof fn lemma_code_bytes(v: nat)
    ensures
        vstd::utf8::is_ascii_chars(code_chars(v)),
        vstd::utf8::encode_utf8(code_chars(v)) == numeral_of(v),
{
    lemma_numeral_of(v);
    let c = code_chars(v);
    assert(vstd::utf8::is_ascii_chars(c));
    vstd::utf8::is_ascii_chars_encode_utf8(c);
    assert(vstd::utf8::encode_utf8(c) =~= numeral_of(v));
}

/// Share codes round-trip: decoding the code of `v` gives `v` back.
pub proof fn lemma_share_code_roundtrip(v: u64)
    ensures
        decoded(vstd::utf8::encode_utf8(code_chars(v as nat))) == Some(v),
{
    lemma_code_bytes(v as nat);
    lemma_decode_encode(v);
}

fn digit_to_byte(d: u64) -> (b: u8)
    requires
        d < 62,
    ensures
        b == digit_byte(d as nat),
{
    if d < 10 {
        (48 + d) as u8
    } else if d < 36 {
        (65 + (d - 10)) as u8
    } else {
        (97 + (d - 36)) as u8
    }
}

fn byte_to_digit(b: u8) -> (d: Option<u64>)
    ensures
        d == (if is_digit_byte(b) { Some(digit_value(b) as u64) } else { None::<u64> }),
{
    if 48 <= b && b <= 57 {
        Some((b - 48) as u64)
    } else if 65 <= b && b <= 90 {
        Some((b - 65 + 10) as u64)
    } else if 97 <= b && b <= 122 {
        Some((b - 97 + 36) as u64)
    } else {
        None
    }
}

/// Builds a `String` from bytes that are all ASCII.
#[verifier::external_body]
fn ascii_to_string(bytes: Vec<u8>) -> (s: String)
    requires
        forall|i: int| 0 <= i < bytes@.len() ==> #[trigger] bytes@[i] < 128,
    ensures
        s@ == bytes@.map_values(|b: u8| b as char),
{
    String::from_utf8(bytes).unwrap()
}

/// Writes `value` as its shortest base-62 numeral.
pub fn encode(value: u64) -> (code: String)
    ensures
        code@ == code_chars(value as nat),
{
    let mut out: Vec<u8> = Vec::new();
    let mut rest = value;
    if rest == 0 {
        out.push(digit_to_byte(0));
    }
    while rest > 0
        invariant
            value > 0 ==> rest > 0 || out@ == numeral_of(value as nat),
            rest > 0 ==> numeral_of(value as nat) == numeral_of(rest as nat) + out@,
            value == 0 ==> out@ == numeral_of(0),
        decreases rest,
    {
        let d = rest % 62;
        let c = digit_to_byte(d);
        let ghost old_out = out@;
        let ghost old_rest = rest;
        out.insert(0, c);
        assert(out@ =~= seq![c] + old_out);
        rest = rest / 62;
        proof {
            if old_rest < 62 {
                assert(numeral_of(old_rest as nat) == seq![c]);
                assert(out@ =~= numeral_of(old_rest as nat) + old_out);
            } else {
                assert(numeral_of(old_rest as nat) == numeral_of(rest as nat).push(c));
                assert(numeral_of(rest as nat) + out@ =~= numeral_of(old_rest as nat) + old_out);
            }
        }
    }
    proof {
        lemma_numeral_of(value as nat);
    }
    ascii_to_string(out)
}

/// Reads a base-62 numeral back into a `u64`: `None` for an empty string, a
/// symbol outside the alphabet, or a value that does not fit in 64 bits.
pub fn decode(s: &str) -> (value: Option<u64>)
    ensures
        value == decoded(s.spec_bytes()),
{
    let bytes = s.as_bytes();
    if bytes.len() == 0 {
        return None;
    }
    let mut value: u64 = 0;
    let mut i: usize = 0;
    while i < bytes.len()
        invariant
            bytes@ == s.spec_bytes(),
            bytes@.len() > 0,
            0 <= i <= bytes@.len(),
            all_digits(bytes@.take(i as int)),
            value == numeral_value(bytes@.take(i as int)),
        decreases bytes@.len() - i,
    {
        let b = bytes[i];
        let ghost next = bytes@.take(i + 1);
        assert(next.drop_last() =~= bytes@.take(i as int));
        assert(next.last() == b);
        let d = match byte_to_digit(b) {
            Some(d) => d,
            None => {
                assert(!is_digit_byte(bytes@[i as int]));
                return None;
            },
        };
        let scaled = match value.checked_mul(62) {
            Some(m) => m,
            None => {
                proof {
                    lemma_prefix_value_le(bytes@, i + 1);
                }
                return None;
            },
        };
        let sum = match scaled.checked_add(d) {
            Some(x) => x,
            None => {
                proof {
                    lemma_prefix_value_le(bytes@, i + 1);
                }
                return None;
            },
        };
        value = sum;
        i = i + 1;
        assert(all_digits(bytes@.take(i as int)));
    }
    assert(bytes@.take(bytes@.len() as int) =~= bytes@);
    Some(value)
}

} // verus!
