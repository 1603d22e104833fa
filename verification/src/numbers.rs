use vstd::prelude::*;
use crate::bytes::{first_ix, lemma_first_ix};
use vstd::slice::slice_subrange;

verus! {

/// Largest magnitude, in millionths of a percentage point, that one row's
/// load value (one hundred minus the busy percentage) can reach, given that
/// the summarizer accepts busy percentages of magnitude below ten million.
pub const LOAD_ABS_MAX_E6: i64 = 10_000_100_000_000;

/// Largest magnitude an average load can reach, in ten-thousandths of a
/// percentage point, once rounded.
pub const AVG_ABS_MAX_E4: i64 = 100_001_000_001;

pub open spec fn is_digit(b: u8) -> bool {
    48 <= b <= 57
}

pub open spec fn all_digits(s: Seq<u8>) -> bool {
    forall|i: int| 0 <= i < s.len() ==> is_digit(#[trigger] s[i])
}

/// Numeric value of a string of ASCII digits, most significant first.
pub open spec fn digits_val(s: Seq<u8>) -> nat
    decreases s.len(),
{
    if s.len() == 0 {
        0
    } else {
        digits_val(s.drop_last()) * 10 + (s.last() - 48) as nat
    }
}

pub open spec fn pow10(k: nat) -> nat
    decreases k,
{
    if k == 0 {
        1
    } else {
        10 * pow10((k - 1) as nat)
    }
}

/// A digit string's value never shrinks when more digits are appended.
pub proof fn lemma_digits_val_prefix_mono(s: Seq<u8>, i: int)
    requires
        0 <= i <= s.len(),
    ensures
        digits_val(s.take(i)) <= digits_val(s),
    decreases s.len(),
{
    if i < s.len() {
        lemma_digits_val_prefix_mono(s.drop_last(), i);
        assert(s.drop_last().take(i) =~= s.take(i));
    } else {
        assert(s.take(i) =~= s);
    }
}

/// A string of `n` digits has value below ten to the `n`.
pub proof fn lemma_digits_val_bound(s: Seq<u8>)
    requires
        all_digits(s),
    ensures
        digits_val(s) < pow10(s.len()),
    decreases s.len(),
{
    if s.len() > 0 {
        assert(all_digits(s.drop_last()));
        lemma_digits_val_bound(s.drop_last());
    }
}

pub proof fn lemma_pow10_add(a: nat, b: nat)
    ensures
        pow10(a + b) == pow10(a) * pow10(b),
    decreases a,
{
    if a == 0 {
        assert(pow10(a + b) == pow10(b));
        assert(pow10(a) * pow10(b) == pow10(b)) by (nonlinear_arith)
            requires
                pow10(a) == 1,
        ;
    } else {
        lemma_pow10_add((a - 1) as nat, b);
        assert(pow10(a + b) == pow10(a) * pow10(b)) by (nonlinear_arith)
            requires
                pow10(a + b) == 10 * pow10((a + b - 1) as nat),
                (a + b - 1) as nat == (a - 1) as nat + b,
                pow10((a - 1) as nat + b) == pow10((a - 1) as nat) * pow10(b),
                pow10(a) == 10 * pow10((a - 1) as nat),
        ;
    }
}

/// The fractional digits of a percentage, scaled to millionths: the first six
/// fractional digits are kept, further ones are ignored.
pub open spec fn frac_scaled_e6(f: Seq<u8>) -> nat {
    if f.len() >= 6 {
        digits_val(f.take(6))
    } else {
        digits_val(f) * pow10((6 - f.len()) as nat)
    }
}

/// The value, in millionths and without sign, of a decimal percentage field:
/// one or more integer digits, then optionally a dot and any run of
/// fractional digits. Values of ten million or more are not accepted.
pub open spec fn unsigned_scaled_e6(t: Seq<u8>) -> Option<int> {
    let d = first_ix(t, 46);
    let ip = t.take(d as int);
    let fp = if d < t.len() {
        t.subrange(d as int + 1, t.len() as int)
    } else {
        Seq::<u8>::empty()
    };
    if ip.len() >= 1 && all_digits(ip) && all_digits(fp) && digits_val(ip) <= 9_999_999 {
        Some(digits_val(ip) * 1_000_000 + frac_scaled_e6(fp) as int)
    } else {
        None
    }
}

/// The value, in millionths of a percentage point, of a decimal percentage
/// field with an optional leading minus sign.
pub open spec fn parse_scaled_e6(s: Seq<u8>) -> Option<i64> {
    if s.len() > 0 && s[0] == 45 {
        match unsigned_scaled_e6(s.drop_first()) {
            Some(v) => Some((-v) as i64),
            None => None,
        }
    } else {
        match unsigned_scaled_e6(s) {
            Some(v) => Some(v as i64),
            None => None,
        }
    }
}

/// Whatever a percentage field parses to is below ten million percent in
/// magnitude, so the corresponding load value fits `LOAD_ABS_MAX_E6`.
pub proof fn lemma_unsigned_scaled_bound(t: Seq<u8>)
    requires
        unsigned_scaled_e6(t) is Some,
    ensures
        0 <= unsigned_scaled_e6(t)->Some_0 <= 9_999_999_999_999,
{
    let d = first_ix(t, 46);
    let ip = t.take(d as int);
    let fp = if d < t.len() {
        t.subrange(d as int + 1, t.len() as int)
    } else {
        Seq::<u8>::empty()
    };
    if fp.len() >= 6 {
        assert(all_digits(fp.take(6)));
        lemma_digits_val_bound(fp.take(6));
        lemma_pow10_concrete();
    } else {
        lemma_digits_val_bound(fp);
        lemma_pow10_add(fp.len(), (6 - fp.len()) as nat);
        lemma_pow10_concrete();
        assert(digits_val(fp) * pow10((6 - fp.len()) as nat) <= (pow10(fp.len()) - 1) * pow10(
            (6 - fp.len()) as nat,
        )) by (nonlinear_arith)
            requires
                digits_val(fp) <= pow10(fp.len()) - 1,
                pow10((6 - fp.len()) as nat) >= 0,
        ;
        assert((pow10(fp.len()) - 1) * pow10((6 - fp.len()) as nat) == pow10(fp.len()) * pow10(
            (6 - fp.len()) as nat,
        ) - pow10((6 - fp.len()) as nat)) by (nonlinear_arith);
        assert(pow10((6 - fp.len()) as nat) >= 1) by {
            lemma_pow10_pos((6 - fp.len()) as nat);
        }
    }
}

/// The small powers of ten the parser and renderer lean on.
pub proof fn lemma_pow10_concrete()
    ensures
        pow10(0) == 1,
        pow10(1) == 10,
        pow10(6) == 1_000_000,
        pow10(7) == 10_000_000,
{
    reveal_with_fuel(pow10, 9);
}

pub proof fn lemma_pow10_pos(k: nat)
    ensures
        pow10(k) >= 1,
    decreases k,
{
    if k > 0 {
        lemma_pow10_pos((k - 1) as nat);
    }
}

/// Executable search for the first occurrence of `sep`.
pub fn find_byte(s: &[u8], sep: u8) -> (r: usize)
    ensures
        r == first_ix(s@, sep),
{
    let mut i: usize = 0;
    while i < s.len()
        invariant
            i <= s@.len(),
            forall|j: int| 0 <= j < i ==> s@[j] != sep,
        decreases s@.len() - i,
    {
        if s[i] == sep {
            proof {
                lemma_first_ix(s@, sep);
            }
            return i;
        }
        i += 1;
    }
    proof {
        lemma_first_ix(s@, sep);
    }
    i
}

/// Value of a run of digits, refused unless it is all digits, non-empty, and
/// at most `9_999_999`.
fn digits_value_capped(ip: &[u8]) -> (r: Option<u64>)
    ensures
        r == (if ip@.len() >= 1 && all_digits(ip@) && digits_val(ip@) <= 9_999_999 {
            Some(digits_val(ip@) as u64)
        } else {
            None::<u64>
        }),
{
    if ip.len() == 0 {
        return None;
    }
    let mut acc: u64 = 0;
    let mut i: usize = 0;
    proof {
        assert(ip@.take(0) =~= Seq::<u8>::empty());
    }
    while i < ip.len()
        invariant
            i <= ip@.len(),
            forall|j: int| 0 <= j < i ==> is_digit(#[trigger] ip@[j]),
            acc == digits_val(ip@.take(i as int)),
            acc <= 9_999_999,
        decreases ip@.len() - i,
    {
        let b = ip[i];
        if b < 48 || b > 57 {
            return None;
        }
        proof {
            assert(ip@.take(i + 1).drop_last() =~= ip@.take(i as int));
        }
        let next = acc * 10 + (b - 48) as u64;
        if next > 9_999_999 {
            proof {
                lemma_digits_val_prefix_mono(ip@, i + 1);
            }
            return None;
        }
        acc = next;
        i += 1;
    }
    proof {
        assert(ip@.take(i as int) =~= ip@);
    }
    Some(acc)
}

/// Fractional digits scaled to millionths, refused unless all digits.
fn frac_value_e6(fp: &[u8]) -> (r: Option<u64>)
    ensures
        r == (if all_digits(fp@) {
            Some(frac_scaled_e6(fp@) as u64)
        } else {
            None::<u64>
        }),
        r is Some ==> r->Some_0 < 1_000_000,
{
    let mut acc: u64 = 0;
    let mut i: usize = 0;
    proof {
        assert(fp@.take(0) =~= Seq::<u8>::empty());
        lemma_pow10_concrete();
    }
    while i < fp.len()
        invariant
            i <= fp@.len(),
            forall|j: int| 0 <= j < i ==> is_digit(#[trigger] fp@[j]),
            acc == digits_val(fp@.take(if i < 6 { i as int } else { 6 })),
            acc < 1_000_000,
        decreases fp@.len() - i,
    {
        let b = fp[i];
        if b < 48 || b > 57 {
            return None;
        }
        if i < 6 {
            proof {
                assert(fp@.take(i + 1).drop_last() =~= fp@.take(i as int));
                assert(all_digits(fp@.take(i + 1)));
                lemma_digits_val_bound(fp@.take(i + 1));
                lemma_pow10_le((i + 1) as nat, 6);
                lemma_pow10_concrete();
            }
            acc = acc * 10 + (b - 48) as u64;
        }
        i += 1;
    }
    if fp.len() >= 6 {
        proof {
            assert(fp@.take(6) =~= fp@.take(6));
        }
        Some(acc)
    } else {
        let mut k: usize = fp.len();
        proof {
            assert(fp@.take(fp@.len() as int) =~= fp@);
            lemma_pow10_concrete();
            lemma_digits_val_bound(fp@);
            assert(acc == digits_val(fp@));
            assert((k - fp@.len()) as nat == 0);
            assert(pow10((k - fp@.len()) as nat) == 1);
            assert(acc == digits_val(fp@) * pow10((k - fp@.len()) as nat)) by (nonlinear_arith)
                requires
                    acc == digits_val(fp@),
                    pow10((k - fp@.len()) as nat) == 1,
            ;
            assert(pow10((1 + k - fp@.len()) as nat) == 10);
            assert(acc < pow10((1 + k - fp@.len()) as nat) * pow10(fp@.len()))
                by (nonlinear_arith)
                requires
                    acc < pow10(fp@.len()),
                    pow10((1 + k - fp@.len()) as nat) == 10,
            ;
        }
        while k < 6
            invariant
                fp@.len() <= k <= 6,
                all_digits(fp@),
                acc == digits_val(fp@) * pow10((k - fp@.len()) as nat),
                acc < pow10((1 + k - fp@.len()) as nat) * pow10(fp@.len()),
            decreases 6 - k,
        {
            proof {
                lemma_digits_val_bound(fp@);
                lemma_pow10_le((1 + k - fp@.len()) as nat + fp@.len(), 7);
                lemma_pow10_add((1 + k - fp@.len()) as nat, fp@.len());
                lemma_pow10_concrete();
            }
            acc = acc * 10;
            k += 1;
            proof {
                assert(digits_val(fp@) * pow10((k - fp@.len()) as nat) == 10 * (digits_val(fp@)
                    * pow10((k - 1 - fp@.len()) as nat))) by (nonlinear_arith)
                    requires
                        k >= 1 + fp@.len(),
                        pow10((k - fp@.len()) as nat) == 10 * pow10((k - 1 - fp@.len()) as nat),
                ;
                assert(pow10((1 + k - fp@.len()) as nat) == 10 * pow10((k - fp@.len()) as nat));
                assert(10 * (digits_val(fp@) * pow10((k - 1 - fp@.len()) as nat)) < 10 * (pow10((k
                    - fp@.len()) as nat) * pow10(fp@.len()))) by (nonlinear_arith)
                    requires
                        digits_val(fp@) * pow10((k - 1 - fp@.len()) as nat) < pow10(
                            (k - fp@.len()) as nat,
                        ) * pow10(fp@.len()),
                ;
                assert(10 * (pow10((k - fp@.len()) as nat) * pow10(fp@.len())) == pow10(
                    (1 + k - fp@.len()) as nat,
                ) * pow10(fp@.len())) by (nonlinear_arith)
                    requires
                        pow10((1 + k - fp@.len()) as nat) == 10 * pow10((k - fp@.len()) as nat),
                ;
            }
        }
        proof {
            lemma_digits_val_bound(fp@);
            lemma_pow10_add((6 - fp@.len()) as nat, fp@.len());
            lemma_pow10_le((1 + 6 - fp@.len()) as nat + fp@.len(), 7);
            lemma_pow10_concrete();
            assert(acc < pow10((1 + 6 - fp@.len()) as nat) * pow10(fp@.len()));
            lemma_pow10_add((1 + 6 - fp@.len()) as nat, fp@.len());
            lemma_frac_bound(fp@);
        }
        Some(acc)
    }
}

/// The scaled fractional part is always below one million.
pub proof fn lemma_frac_bound(f: Seq<u8>)
    requires
        all_digits(f),
    ensures
        frac_scaled_e6(f) < 1_000_000,
{
    lemma_pow10_concrete();
    if f.len() >= 6 {
        assert(all_digits(f.take(6)));
        lemma_digits_val_bound(f.take(6));
    } else {
        lemma_digits_val_bound(f);
        lemma_pow10_add(f.len(), (6 - f.len()) as nat);
        assert(digits_val(f) * pow10((6 - f.len()) as nat) <= (pow10(f.len()) - 1) * pow10(
            (6 - f.len()) as nat,
        )) by (nonlinear_arith)
            requires
                digits_val(f) <= pow10(f.len()) - 1,
                pow10((6 - f.len()) as nat) >= 0,
        ;
        assert((pow10(f.len()) - 1) * pow10((6 - f.len()) as nat) == pow10(f.len()) * pow10(
            (6 - f.len()) as nat,
        ) - pow10((6 - f.len()) as nat)) by (nonlinear_arith);
        lemma_pow10_pos((6 - f.len()) as nat);
    }
}

pub proof fn lemma_pow10_le(a: nat, b: nat)
    requires
        a <= b,
    ensures
        pow10(a) <= pow10(b),
    decreases b,
{
    if a < b {
        lemma_pow10_le(a, (b - 1) as nat);
        lemma_pow10_pos((b - 1) as nat);
    }
}

/// Parses a decimal percentage field to millionths of a percentage point,
/// exactly as `parse_scaled_e6` says.
pub fn parse_percent_e6(s: &[u8]) -> (r: Option<i64>)
    ensures
        r == parse_scaled_e6(s@),
        r is Some ==> -9_999_999_999_999 <= r->Some_0 <= 9_999_999_999_999,
{
    let neg = s.len() > 0 && s[0] == 45;
    let t: &[u8] = if neg {
        slice_subrange(s, 1, s.len())
    } else {
        slice_subrange(s, 0, s.len())
    };
    proof {
        if neg {
            assert(t@ =~= s@.drop_first());
        } else {
            assert(t@ =~= s@);
        }
    }
    let d = find_byte(t, 46);
    proof {
        lemma_first_ix(t@, 46);
    }
    let ip = slice_subrange(t, 0, d);
    let hi = t.len();
    let fp = if d < hi {
        slice_subrange(t, d + 1, hi)
    } else {
        slice_subrange(t, hi, hi)
    };
    proof {
        assert(ip@ =~= t@.take(d as int));
        if d >= t@.len() {
            assert(fp@ =~= Seq::<u8>::empty());
        }
    }
    let iv = match digits_value_capped(ip) {
        Some(v) => v,
        None => {
            return None;
        },
    };
    let fv = match frac_value_e6(fp) {
        Some(v) => v,
        None => {
            return None;
        },
    };
    proof {
        lemma_unsigned_scaled_bound(t@);
    }
    let mag: u64 = iv * 1_000_000 + fv;
    if neg {
        Some(-(mag as i64))
    } else {
        Some(mag as i64)
    }
}

/// ASCII decimal rendering of a non-negative integer, no leading zeros
/// except for zero itself.
pub open spec fn dec_bytes(n: nat) -> Seq<u8>
    decreases n,
{
    if n < 10 {
        seq![(48 + n) as u8]
    } else {
        dec_bytes(n / 10) + seq![(48 + n % 10) as u8]
    }
}

/// Appends the decimal rendering of `n`.
pub fn push_dec(out: &mut Vec<u8>, n: u64)
    ensures
        final(out)@ == old(out)@ + dec_bytes(n as nat),
    decreases n,
{
    if n < 10 {
        out.push(48 + n as u8);
        proof {
            assert(out@ =~= old(out)@ + dec_bytes(n as nat));
        }
    } else {
        push_dec(out, n / 10);
        out.push(48 + (n % 10) as u8);
        proof {
            assert((n as nat) / 10 == (n / 10) as nat);
            assert(out@ =~= old(out)@ + dec_bytes(n as nat));
        }
    }
}

/// The last four decimal digits of a number, zero-padded.
pub open spec fn frac4_bytes(r: nat) -> Seq<u8> {
    seq![
        (48 + r / 1000 % 10) as u8,
        (48 + r / 100 % 10) as u8,
        (48 + r / 10 % 10) as u8,
        (48 + r % 10) as u8,
    ]
}

/// Rendering of a non-negative average held in ten-thousandths: the integer
/// part, a dot, and exactly four fractional digits.
pub open spec fn mag_e4_bytes(m: nat) -> Seq<u8> {
    dec_bytes(m / 10000) + seq![46u8] + frac4_bytes(m % 10000)
}

/// Rendering of an average held in ten-thousandths of a percentage point,
/// with exactly four digits after the dot, and a leading minus sign when
/// negative.
pub open spec fn avg_e4_bytes(a: int) -> Seq<u8> {
    if a < 0 {
        seq![45u8] + mag_e4_bytes((-a) as nat)
    } else {
        mag_e4_bytes(a as nat)
    }
}

/// Appends the rendering of an average held in ten-thousandths.
pub fn push_avg_e4(out: &mut Vec<u8>, a: i64)
    requires
        a > i64::MIN,
    ensures
        final(out)@ == old(out)@ + avg_e4_bytes(a as int),
{
    let ghost base = out@;
    let m: u64 = if a < 0 {
        out.push(45);
        (-a) as u64
    } else {
        a as u64
    };
    let ghost mid = out@;
    push_dec(out, m / 10000);
    out.push(46);
    let f = m % 10000;
    out.push(48 + (f / 1000) as u8);
    out.push(48 + (f / 100 % 10) as u8);
    out.push(48 + (f / 10 % 10) as u8);
    out.push(48 + (f % 10) as u8);
    proof {
        assert((m as nat) / 10000 == (m / 10000) as nat);
        assert(f == m as nat % 10000);
        assert(f / 1000 % 10 == f / 1000);
        assert(out@ =~= mid + mag_e4_bytes(m as nat));
        if a < 0 {
            assert(mid =~= base + seq![45u8]);
            assert(out@ =~= base + avg_e4_bytes(a as int));
        } else {
            assert(out@ =~= base + avg_e4_bytes(a as int));
        }
    }
}

/// `a` divided by `d`, rounded to the nearest integer with halves away from
/// zero.
pub open spec fn round_div_away(a: int, d: int) -> int
    recommends
        d > 0,
{
    if a >= 0 {
        (2 * a + d) / (2 * d)
    } else {
        -((2 * (-a) + d) / (2 * d))
    }
}

/// The average load over `n` rows whose loads sum to `sum` millionths,
/// rounded to ten-thousandths of a percentage point.
pub fn avg_of_sum(sum: i128, n: usize) -> (r: i64)
    requires
        1 <= n,
        -(n as int) * LOAD_ABS_MAX_E6 <= sum <= (n as int) * LOAD_ABS_MAX_E6,
    ensures
        r == round_div_away(sum as int, 100 * (n as int)),
        -AVG_ABS_MAX_E4 <= r <= AVG_ABS_MAX_E4,
{
    let d: u128 = 100 * (n as u128);
    let neg = sum < 0;
    let a: u128 = if neg {
        (-sum) as u128
    } else {
        sum as u128
    };
    let q128: u128 = (2 * a + d) / (2 * d);
    proof {
        let aa = a as int;
        let dd = d as int;
        assert(aa <= (n as int) * LOAD_ABS_MAX_E6);
        assert(2 * aa + dd < (AVG_ABS_MAX_E4 + 1) * (2 * dd)) by (nonlinear_arith)
            requires
                aa <= (n as int) * LOAD_ABS_MAX_E6,
                dd == 100 * (n as int),
                n >= 1,
                LOAD_ABS_MAX_E6 == 10_000_100_000_000,
                AVG_ABS_MAX_E4 == 100_001_000_001,
        ;
        assert((2 * aa + dd) / (2 * dd) <= AVG_ABS_MAX_E4) by (nonlinear_arith)
            requires
                2 * aa + dd < (AVG_ABS_MAX_E4 + 1) * (2 * dd),
                dd >= 100,
        ;
    }
    let q = q128 as i64;
    if neg {
        -q
    } else {
        q
    }
}

} // verus!
