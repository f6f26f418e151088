//! The decimal codec the counter's responses travel through: rendering a
//! count as ASCII digits on the service side, and parsing the digits back
//! into a number on the driver side.

use vstd::prelude::*;
use vstd::pervasive::unreached;
use vstd::utf8::*;

verus! {

/// The ASCII code of the decimal digit `d`.
pub open spec fn digit_byte(d: nat) -> u8
    recommends
        d < 10,
{
    (48 + d) as u8
}

/// The decimal digits of `n` as ASCII bytes, most significant first,
/// with no sign and no leading zeros (except for `n == 0` itself).
pub open spec fn spec_digits(n: nat) -> Seq<u8>
    decreases n,
{
    if n < 10 {
        seq![digit_byte(n)]
    } else {
        spec_digits(n / 10).push(digit_byte(n % 10))
    }
}

/// `b` is the ASCII code of a decimal digit.
pub open spec fn is_digit_byte(b: u8) -> bool {
    48 <= b && b <= 57
}

/// Every byte of `s` is an ASCII decimal digit.
pub open spec fn all_digit_bytes(s: Seq<u8>) -> bool {
    forall|i: int| 0 <= i < s.len() ==> is_digit_byte(#[trigger] s[i])
}

/// The number that a sequence of ASCII digits denotes in base 10.
pub open spec fn digits_value(s: Seq<u8>) -> nat
    recommends
        all_digit_bytes(s),
    decreases s.len(),
{
    if s.len() == 0 {
        0
    } else {
        (digits_value(s.drop_last()) * 10 + (s.last() - 48)) as nat
    }
}

/// Rendering never produces an empty sequence, only digit bytes, and no
/// leading zero unless the value itself is zero.
pub proof fn lemma_digits_shape(n: nat)
    ensures
        spec_digits(n).len() >= 1,
        all_digit_bytes(spec_digits(n)),
        spec_digits(n)[0] == 48 ==> n == 0,
    decreases n,
{
    if n >= 10 {
        lemma_digits_shape(n / 10);
    }
}

/// Reading the rendered digits back yields the rendered value.
pub proof fn lemma_digits_value_of_digits(n: nat)
    ensures
        digits_value(spec_digits(n)) == n,
    decreases n,
{
    assert(spec_digits(n).len() >= 1) by {
        lemma_digits_shape(n);
    }
    assert(digits_value(spec_digits(n)) == (digits_value(spec_digits(n).drop_last()) * 10 + (
    spec_digits(n).last() - 48)) as nat);
    if n < 10 {
        assert(spec_digits(n).drop_last() =~= Seq::<u8>::empty());
        assert(spec_digits(n).last() == digit_byte(n));
        assert(digit_byte(n) - 48 == n);
    } else {
        lemma_digits_value_of_digits(n / 10);
        assert(spec_digits(n).drop_last() =~= spec_digits(n / 10));
        assert(spec_digits(n).last() == digit_byte(n % 10));
        assert(digit_byte(n % 10) - 48 == n % 10);
        assert((n / 10) * 10 + n % 10 == n);
    }
}

/// Render `n` in decimal, as ASCII digit bytes.
pub fn render_u64(n: u64) -> (r: Vec<u8>)
    ensures
        r@ == spec_digits(n as nat),
{
    let mut out: Vec<u8> = Vec::new();
    let mut cur: u64 = n;
    while cur >= 10
        invariant
            spec_digits(n as nat) =~= spec_digits(cur as nat) + out@,
        decreases cur,
    {
        let d: u8 = (cur % 10) as u8 + 48;
        let ghost pre = out@;
        out.insert(0, d);
        proof {
            assert(out@ =~= seq![d] + pre);
            assert(spec_digits(cur as nat) =~= spec_digits((cur as nat) / 10).push(
                digit_byte((cur as nat) % 10),
            ));
            assert(spec_digits((cur as nat) / 10).push(digit_byte((cur as nat) % 10)) + pre
                =~= spec_digits((cur as nat) / 10) + (seq![d] + pre));
            assert(spec_digits(n as nat) =~= spec_digits((cur as nat) / 10) + out@);
        }
        cur = cur / 10;
    }
    let d: u8 = cur as u8 + 48;
    let ghost pre = out@;
    out.insert(0, d);
    proof {
        assert(out@ =~= seq![d] + pre);
        assert(spec_digits(cur as nat) =~= seq![digit_byte(cur as nat)]);
        assert(out@ =~= spec_digits(cur as nat) + pre);
        assert(out@ =~= spec_digits(n as nat));
    }
    out
}

/// What parsing the digits after an optional sign yields: the denoted
/// value when the digits are well formed and fit in an `i32`, nothing
/// otherwise.
pub open spec fn spec_parse_digits(digs: Seq<u8>, negative: bool) -> Option<i32> {
    if digs.len() == 0 || !all_digit_bytes(digs) {
        None
    } else if negative {
        if digits_value(digs) <= 0x8000_0000 {
            Some((0 - digits_value(digs)) as i32)
        } else {
            None
        }
    } else {
        if digits_value(digs) <= 0x7fff_ffff {
            Some(digits_value(digs) as i32)
        } else {
            None
        }
    }
}

/// What parsing `s` as a base-10 `i32` yields: an optional `+` or `-`
/// sign, then one or more decimal digits denoting a value in range;
/// anything else is rejected.
pub open spec fn spec_parse_i32(s: Seq<u8>) -> Option<i32> {
    if s.len() > 0 && (s[0] == 43 || s[0] == 45) {
        spec_parse_digits(s.drop_first(), s[0] == 45)
    } else {
        spec_parse_digits(s, false)
    }
}

/// In an all-digit sequence the value of a prefix never exceeds the
/// value of the whole: later digits only scale it up.
proof fn lemma_digits_value_prefix_le(s: Seq<u8>, i: int)
    requires
        0 <= i <= s.len(),
        all_digit_bytes(s),
    ensures
        digits_value(s.subrange(0, i)) <= digits_value(s),
    decreases s.len() - i,
{
    if i < s.len() {
        let a = s.subrange(0, i);
        let b = s.subrange(0, i + 1);
        assert(b.drop_last() =~= a);
        assert(digits_value(b) == (digits_value(a) * 10 + (b.last() - 48)) as nat);
        assert(digits_value(a) <= digits_value(a) * 10);
        lemma_digits_value_prefix_le(s, i + 1);
    } else {
        assert(s.subrange(0, i) =~= s);
    }
}

/// Parse `s` as a base-10 `i32`, exactly as `spec_parse_i32` reads it.
pub fn parse_i32(s: &Vec<u8>) -> (r: Option<i32>)
    ensures
        r == spec_parse_i32(s@),
{
    let len = s.len();
    let mut start: usize = 0;
    let mut negative = false;
    if len > 0 && (s[0] == 43 || s[0] == 45) {
        negative = s[0] == 45;
        start = 1;
    }
    let ghost digs = s@.subrange(start as int, len as int);
    proof {
        if start == 1 {
            assert(digs =~= s@.drop_first());
        } else {
            assert(digs =~= s@);
        }
    }
    if start == len {
        return None;
    }
    let limit: u64 = if negative {
        0x8000_0000
    } else {
        0x7fff_ffff
    };
    let mut acc: u64 = 0;
    let mut i: usize = start;
    while i < len
        invariant
            start <= i <= len,
            len == s@.len(),
            start <= 1,
            limit == (if negative {
                0x8000_0000u64
            } else {
                0x7fff_ffffu64
            }),
            digs == s@.subrange(start as int, len as int),
            spec_parse_i32(s@) == spec_parse_digits(digs, negative),
            all_digit_bytes(digs.subrange(0, i - start)),
            acc == digits_value(digs.subrange(0, i - start)),
            acc <= limit,
        decreases len - i,
    {
        let b = s[i];
        let ghost seen = digs.subrange(0, i - start);
        proof {
            assert(digs.subrange(0, i + 1 - start).drop_last() =~= seen);
            assert(digs.subrange(0, i + 1 - start).last() == s@[i as int]);
        }
        if b < 48 || b > 57 {
            proof {
                assert(digs[i - start] == b);
                assert(!is_digit_byte(digs[i - start]));
                assert(!all_digit_bytes(digs));
                assert(spec_parse_digits(digs, negative) is None);
                assert(spec_parse_i32(s@) == spec_parse_digits(digs, negative));
            }
            return None;
        }
        let next: u64 = acc * 10 + ((b - 48) as u64);
        proof {
            assert(digs.subrange(0, i + 1 - start) =~= seen.push(b));
            assert(all_digit_bytes(seen.push(b)));
            assert(digits_value(seen.push(b)) == (digits_value(seen) * 10 + (b - 48)) as nat)
                by {
                assert(seen.push(b).drop_last() =~= seen);
            }
        }
        if next > limit {
            proof {
                if all_digit_bytes(digs) {
                    lemma_digits_value_prefix_le(digs, i + 1 - start);
                    assert(digits_value(digs) >= next);
                }
                assert(spec_parse_digits(digs, negative) is None);
                assert(spec_parse_i32(s@) == spec_parse_digits(digs, negative));
            }
            return None;
        }
        acc = next;
        i = i + 1;
    }
    proof {
        assert(digs.subrange(0, len - start) =~= digs);
    }
    if negative {
        let v: i64 = -(acc as i64);
        Some(v as i32)
    } else {
        Some(acc as i32)
    }
}

/// The characters that a sequence of ASCII bytes spells, one per byte.
pub open spec fn ascii_chars_of(s: Seq<u8>) -> Seq<char> {
    Seq::new(s.len(), |i: int| s[i] as char)
}

/// Every byte of `s` is below 128: plain ASCII.
pub open spec fn all_ascii_bytes(s: Seq<u8>) -> bool {
    forall|i: int| 0 <= i < s.len() ==> #[trigger] s[i] < 128
}

/// ASCII bytes are valid UTF-8 and decode to themselves, byte for byte.
pub proof fn lemma_ascii_utf8(s: Seq<u8>)
    requires
        all_ascii_bytes(s),
    ensures
        valid_utf8(s),
        decode_utf8(s) == ascii_chars_of(s),
        encode_utf8(ascii_chars_of(s)) == s,
{
    let cs = ascii_chars_of(s);
    assert forall|i: int| 0 <= i < cs.len() implies '\0' <= #[trigger] cs[i] <= '\u{7f}' by {
        assert(s[i] < 128);
    }
    assert(is_ascii_chars(cs));
    is_ascii_chars_encode_utf8(cs);
    assert(encode_utf8(cs) =~= s);
    encode_utf8_valid_utf8(cs);
    encode_utf8_decode_utf8(cs);
}

/// Relies on std's `String::from_utf8`: it succeeds exactly on valid
/// UTF-8 input, and then decodes the bytes into the string's characters.
#[verifier::external_body]
pub(crate) fn utf8_to_string(bytes: &Vec<u8>) -> (r: Option<String>)
    ensures
        r is Some <==> valid_utf8(bytes@),
        (r matches Some(s) ==> s@ == decode_utf8(bytes@)),
{
    String::from_utf8(bytes.clone()).ok()
}

/// The string that a sequence of ASCII bytes spells.
pub fn ascii_to_string(bytes: &Vec<u8>) -> (r: String)
    requires
        all_ascii_bytes(bytes@),
    ensures
        r@ == ascii_chars_of(bytes@),
{
    proof {
        lemma_ascii_utf8(bytes@);
    }
    match utf8_to_string(bytes) {
        Some(s) => s,
        None => unreached(),
    }
}

/// Round trip: the digits the service renders for `n` parse back to
/// exactly `n`, as long as `n` fits in the driver's `i32`.
pub proof fn lemma_render_parse_round_trip(n: u64)
    requires
        n <= 0x7fff_ffff,
    ensures
        spec_parse_i32(spec_digits(n as nat)) == Some(n as i32),
{
    let s = spec_digits(n as nat);
    lemma_digits_shape(n as nat);
    lemma_digits_value_of_digits(n as nat);
    assert(is_digit_byte(s[0]));
    assert(s[0] != 43 && s[0] != 45);
}

} // verus!
