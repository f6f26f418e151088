//! The benchmark's printed report: the request count with thousands
//! separators, the elapsed and per-request durations in a human-readable
//! unit, and the one summary sentence that holds them.

use crate::codec::all_ascii_bytes;
use crate::codec::ascii_chars_of;
use crate::codec::ascii_to_string;
use crate::codec::lemma_digits_shape;
use crate::codec::render_u64;
use crate::codec::spec_digits;
use crate::driver::TIMED_REQUESTS;
use num_format::Locale;
use num_format::ToFormattedString;
use vstd::prelude::*;
use vstd::string::StringExecFns;

verus! {

/// Decimal digit characters split into three-digit groups from the
/// right, with a comma between groups.
pub open spec fn spec_group3(s: Seq<char>) -> Seq<char>
    decreases s.len(),
{
    if s.len() <= 3 {
        s
    } else {
        spec_group3(s.take(s.len() - 3)) + seq![','] + s.skip(s.len() - 3)
    }
}

/// `n` in decimal with thousands separators, as English locales write it.
pub open spec fn spec_grouped(n: nat) -> Seq<char> {
    spec_group3(ascii_chars_of(spec_digits(n)))
}

/// Relies on num_format's `ToFormattedString` with `Locale::en`, whose
/// separator is `,` and whose grouping is `Standard`: the decimal digits
/// in three-digit groups from the right, with a comma between groups.
#[verifier::external_body]
fn grouped_u64_en(n: u64) -> (r: String)
    ensures
        r@ == spec_grouped(n as nat),
{
    n.to_formatted_string(&Locale::en)
}

/// Ten to the `k`.
pub open spec fn pow10(k: nat) -> nat
    decreases k,
{
    if k == 0 {
        1
    } else {
        10 * pow10((k - 1) as nat)
    }
}

/// A value below `10^k` has at most `k` decimal digits.
proof fn lemma_digits_len_le(n: nat, k: nat)
    requires
        k >= 1,
        n < pow10(k),
    ensures
        spec_digits(n).len() <= k,
    decreases k,
{
    if n < 10 {
    } else {
        assert(k >= 2) by {
            if k == 1 {
                assert(pow10(1) == 10);
            }
        }
        assert(pow10(k) == 10 * pow10((k - 1) as nat));
        assert(n / 10 < pow10((k - 1) as nat)) by {
            if n / 10 >= pow10((k - 1) as nat) {
                assert(n == 10 * (n / 10) + n % 10);
                assert(10 * (n / 10) >= 10 * pow10((k - 1) as nat)) by (nonlinear_arith)
                    requires
                        n / 10 >= pow10((k - 1) as nat),
                ;
            }
        }
        lemma_digits_len_le(n / 10, (k - 1) as nat);
    }
}

/// `digs` left-padded with zeros to `width` digits.
pub open spec fn spec_zero_pad(digs: Seq<u8>, width: nat) -> Seq<u8>
    recommends
        digs.len() <= width,
{
    Seq::new((width - digs.len()) as nat, |i: int| 48u8) + digs
}

/// `s` with its trailing zero digits dropped.
pub open spec fn spec_trim_zeros(s: Seq<u8>) -> Seq<u8>
    decreases s.len(),
{
    if s.len() > 0 && s.last() == 48 {
        spec_trim_zeros(s.drop_last())
    } else {
        s
    }
}

/// The fractional part a duration prints after its integer part: a
/// decimal point and `frac` padded to `width` digits with the trailing
/// zeros dropped; nothing at all when `frac` is zero.
pub open spec fn spec_fraction(frac: nat, width: nat) -> Seq<u8> {
    let t = spec_trim_zeros(spec_zero_pad(spec_digits(frac), width));
    if t.len() == 0 {
        Seq::empty()
    } else {
        seq![46u8] + t
    }
}

/// A duration of `nanos` nanoseconds in the largest unit it fills, as
/// ASCII text: seconds, milliseconds, microseconds or nanoseconds, the
/// sub-unit rest as a trimmed fraction.
pub open spec fn spec_duration(nanos: nat) -> Seq<u8> {
    if nanos >= 1_000_000_000 {
        spec_digits(nanos / 1_000_000_000) + spec_fraction(nanos % 1_000_000_000, 9) + seq![115u8]
    } else if nanos >= 1_000_000 {
        spec_digits(nanos / 1_000_000) + spec_fraction(nanos % 1_000_000, 6) + seq![109u8, 115u8]
    } else if nanos >= 1_000 {
        spec_digits(nanos / 1_000) + spec_fraction(nanos % 1_000, 3) + seq![117u8, 115u8]
    } else {
        spec_digits(nanos) + seq![110u8, 115u8]
    }
}

/// Append the printed fraction of `frac`, padded to `width` digits.
fn push_fraction(out: &mut Vec<u8>, frac: u64, width: usize)
    requires
        1 <= width,
        (frac as nat) < pow10(width as nat),
    ensures
        final(out)@ == old(out)@ + spec_fraction(frac as nat, width as nat),
{
    let mut digs = render_u64(frac);
    proof {
        lemma_digits_len_le(frac as nat, width as nat);
    }
    let mut padded: Vec<u8> = Vec::new();
    let zeros = width - digs.len();
    let mut z: usize = 0;
    while z < zeros
        invariant
            z <= zeros,
            padded@ =~= Seq::new(z as nat, |i: int| 48u8),
        decreases zeros - z,
    {
        padded.push(48);
        proof {
            assert(padded@ =~= Seq::new((z + 1) as nat, |i: int| 48u8));
        }
        z = z + 1;
    }
    let ghost digs0 = digs@;
    padded.append(&mut digs);
    proof {
        assert(padded@ =~= spec_zero_pad(digs0, width as nat));
    }
    let ghost target = spec_trim_zeros(spec_zero_pad(spec_digits(frac as nat), width as nat));
    while padded.len() > 0 && padded[padded.len() - 1] == 48
        invariant
            spec_trim_zeros(padded@) == target,
        decreases padded.len(),
    {
        let ghost pre = padded@;
        padded.pop();
        proof {
            assert(padded@ =~= pre.drop_last());
        }
    }
    proof {
        assert(spec_trim_zeros(padded@) == padded@);
    }
    if padded.len() > 0 {
        let ghost outpre = out@;
        out.push(46);
        out.append(&mut padded);
        proof {
            assert(out@ =~= outpre + (seq![46u8] + target));
        }
    }
}

/// Append `unit` after the digits: the unit suffix of the duration.
fn push_unit(out: &mut Vec<u8>, unit: u8)
    ensures
        final(out)@ == old(out)@ + seq![unit],
{
    out.push(unit);
}

/// Render a duration of `nanos` nanoseconds as ASCII text, in the
/// largest of s, ms, us and ns that it fills.
pub fn render_duration(nanos: u64) -> (r: Vec<u8>)
    ensures
        r@ == spec_duration(nanos as nat),
{
    proof {
        assert(pow10(9) == 1_000_000_000 && pow10(6) == 1_000_000 && pow10(3) == 1_000) by {
            reveal_with_fuel(pow10, 10);
        }
    }
    let mut out: Vec<u8>;
    if nanos >= 1_000_000_000 {
        out = render_u64(nanos / 1_000_000_000);
        push_fraction(&mut out, nanos % 1_000_000_000, 9);
        push_unit(&mut out, 115);
        proof {
            assert(out@ =~= spec_duration(nanos as nat));
        }
    } else if nanos >= 1_000_000 {
        out = render_u64(nanos / 1_000_000);
        push_fraction(&mut out, nanos % 1_000_000, 6);
        push_unit(&mut out, 109);
        push_unit(&mut out, 115);
        proof {
            assert(out@ =~= spec_duration(nanos as nat));
        }
    } else if nanos >= 1_000 {
        out = render_u64(nanos / 1_000);
        push_fraction(&mut out, nanos % 1_000, 3);
        push_unit(&mut out, 117);
        push_unit(&mut out, 115);
        proof {
            assert(out@ =~= spec_duration(nanos as nat));
        }
    } else {
        out = render_u64(nanos);
        push_unit(&mut out, 110);
        push_unit(&mut out, 115);
        proof {
            assert(out@ =~= spec_duration(nanos as nat));
        }
    }
    out
}

/// Concatenation keeps bytes ASCII.
proof fn lemma_concat_ascii(a: Seq<u8>, b: Seq<u8>)
    requires
        all_ascii_bytes(a),
        all_ascii_bytes(b),
    ensures
        all_ascii_bytes(a + b),
{
    assert forall|i: int| 0 <= i < (a + b).len() implies #[trigger] (a + b)[i] < 128 by {
        if i < a.len() {
            assert(a[i] < 128);
        } else {
            assert(b[i - a.len()] < 128);
        }
    }
}

/// Trimming keeps bytes ASCII.
proof fn lemma_trim_ascii(s: Seq<u8>)
    requires
        all_ascii_bytes(s),
    ensures
        all_ascii_bytes(spec_trim_zeros(s)),
    decreases s.len(),
{
    if s.len() > 0 && s.last() == 48 {
        assert(all_ascii_bytes(s.drop_last()));
        lemma_trim_ascii(s.drop_last());
    }
}

/// The printed fraction is ASCII.
proof fn lemma_fraction_ascii(frac: nat, width: nat)
    ensures
        all_ascii_bytes(spec_fraction(frac, width)),
{
    lemma_digits_shape(frac);
    let padded = spec_zero_pad(spec_digits(frac), width);
    assert(all_ascii_bytes(padded)) by {
        lemma_concat_ascii(
            Seq::new((width - spec_digits(frac).len()) as nat, |i: int| 48u8),
            spec_digits(frac),
        );
    }
    lemma_trim_ascii(padded);
    let t = spec_trim_zeros(padded);
    if t.len() != 0 {
        lemma_concat_ascii(seq![46u8], t);
    }
}

/// A rendered duration is ASCII throughout.
pub proof fn lemma_duration_ascii(nanos: nat)
    ensures
        all_ascii_bytes(spec_duration(nanos)),
{
    lemma_digits_shape(nanos);
    lemma_digits_shape(nanos / 1_000_000_000);
    lemma_digits_shape(nanos / 1_000_000);
    lemma_digits_shape(nanos / 1_000);
    lemma_fraction_ascii(nanos % 1_000_000_000, 9);
    lemma_fraction_ascii(nanos % 1_000_000, 6);
    lemma_fraction_ascii(nanos % 1_000, 3);
    if nanos >= 1_000_000_000 {
        lemma_concat_ascii(
            spec_digits(nanos / 1_000_000_000),
            spec_fraction(nanos % 1_000_000_000, 9),
        );
        lemma_concat_ascii(
            spec_digits(nanos / 1_000_000_000) + spec_fraction(nanos % 1_000_000_000, 9),
            seq![115u8],
        );
    } else if nanos >= 1_000_000 {
        lemma_concat_ascii(spec_digits(nanos / 1_000_000), spec_fraction(nanos % 1_000_000, 6));
        lemma_concat_ascii(
            spec_digits(nanos / 1_000_000) + spec_fraction(nanos % 1_000_000, 6),
            seq![109u8, 115u8],
        );
    } else if nanos >= 1_000 {
        lemma_concat_ascii(spec_digits(nanos / 1_000), spec_fraction(nanos % 1_000, 3));
        lemma_concat_ascii(
            spec_digits(nanos / 1_000) + spec_fraction(nanos % 1_000, 3),
            seq![117u8, 115u8],
        );
    } else {
        lemma_concat_ascii(spec_digits(nanos), seq![110u8, 115u8]);
    }
}

/// The one summary sentence a finished run prints: the timed request
/// count with thousands separators, the elapsed time, and the truncated
/// per-request average.
pub open spec fn spec_summary(elapsed_nanos: nat) -> Seq<char> {
    "Performed "@ + spec_grouped(TIMED_REQUESTS as nat) + " local requests in "@ + ascii_chars_of(
        spec_duration(elapsed_nanos),
    ) + " ("@ + ascii_chars_of(spec_duration(elapsed_nanos / (TIMED_REQUESTS as nat)))
        + " / request)"@
}

/// Build the summary sentence for a run that took `elapsed_nanos`.
pub fn summary_line(elapsed_nanos: u64) -> (r: String)
    ensures
        r@ == spec_summary(elapsed_nanos as nat),
{
    let mut s = String::from_str("Performed ");
    let grouped = grouped_u64_en(TIMED_REQUESTS);
    s.append(grouped.as_str());
    s.append(" local requests in ");
    let elapsed = render_duration(elapsed_nanos);
    proof {
        lemma_duration_ascii(elapsed_nanos as nat);
    }
    let elapsed_text = ascii_to_string(&elapsed);
    s.append(elapsed_text.as_str());
    s.append(" (");
    let average = elapsed_nanos / TIMED_REQUESTS;
    let per_request = render_duration(average);
    proof {
        lemma_duration_ascii(average as nat);
    }
    let per_request_text = ascii_to_string(&per_request);
    s.append(per_request_text.as_str());
    s.append(" / request)");
    proof {
        assert(s@ =~= spec_summary(elapsed_nanos as nat));
    }
    s
}

} // verus!
