//! Exact decimal text for fixed-point values: rendering a multiple of
//! `1 / 4096` as decimal text, and parsing it back without loss.
use crate::decide::Decimal;
use crate::text::{
    all_digits, digit_char, digit_val, digits_val, is_digit, lemma_digit_char_val,
    lemma_nat_text_val, nat_text, nat_to_chars, string_from_chars, chars_of, digit_char_exec,
};
use vstd::prelude::*;

verus! {

pub open spec fn pow10(n: nat) -> nat
    decreases n,
{
    if n == 0 {
        1
    } else {
        10 * pow10((n - 1) as nat)
    }
}

/// The fraction digits of `rem / 4096`, `j` of them, by repeated
/// multiplication by ten.
pub open spec fn frac_digit_seq(rem: int, j: nat) -> Seq<char>
    decreases j,
{
    if j == 0 {
        Seq::empty()
    } else {
        seq![digit_char(rem * 10 / 4096)] + frac_digit_seq(rem * 10 % 4096, (j - 1) as nat)
    }
}

/// Trailing zeros removed, but at least one digit kept.
pub open spec fn trim_zeros(s: Seq<char>) -> Seq<char>
    decreases s.len(),
{
    if s.len() <= 1 {
        s
    } else if s.last() == '0' {
        trim_zeros(s.drop_last())
    } else {
        s
    }
}

/// The canonical decimal text of `raw / 4096`: optional sign, integer
/// part, a point, and the exact fraction digits with trailing zeros
/// trimmed to at least one digit.
pub open spec fn dec_text(raw: int) -> Seq<char> {
    if raw < 0 {
        seq!['-'] + mag_text(-raw)
    } else {
        mag_text(raw)
    }
}

pub open spec fn mag_text(mag: int) -> Seq<char> {
    nat_text((mag / 4096) as nat) + seq!['.'] + trim_zeros(frac_digit_seq(mag % 4096, 12))
}

/// The first position at or after `i` holding a non-digit, if any.
pub open spec fn first_non_digit(s: Seq<char>, i: int) -> Option<int>
    decreases s.len() - i,
{
    if i < 0 || i >= s.len() {
        None
    } else if !is_digit(s[i]) {
        Some(i)
    } else {
        first_non_digit(s, i + 1)
    }
}

/// The value denoted by decimal text, scaled by 4096: `Some` exactly for
/// an optional sign, a non-empty run of digits, a point, and a non-empty
/// run of digits that denote (after trimming trailing zeros) at most
/// twelve places of an exact multiple of `1 / 4096`, all within `i32`.
pub open spec fn parse_dec(s: Seq<char>) -> Option<int> {
    let neg = s.len() > 0 && s[0] == '-';
    let body = if neg {
        s.drop_first()
    } else {
        s
    };
    match first_non_digit(body, 0) {
        None => None,
        Some(d) => {
            if !(1 <= d < body.len() && body[d] == '.' && d + 1 < body.len() && all_digits(
                body.subrange(d + 1, body.len() as int),
            )) {
                None
            } else {
                let ipart = digits_val(body.subrange(0, d));
                let ftrim = trim_zeros(body.subrange(d + 1, body.len() as int));
                if ftrim.len() > 12 {
                    None
                } else {
                    let fval = digits_val(ftrim);
                    if (fval * 4096) % (pow10(ftrim.len()) as int) != 0 {
                        None
                    } else {
                        let mag = ipart * 4096 + (fval * 4096) / (pow10(ftrim.len()) as int);
                        let raw = if neg {
                            -mag
                        } else {
                            mag
                        };
                        if i32::MIN <= raw <= i32::MAX {
                            Some(raw)
                        } else {
                            None
                        }
                    }
                }
            }
        },
    }
}

proof fn lemma_pow10_pos(n: nat)
    ensures
        pow10(n) >= 1,
    decreases n,
{
    if n > 0 {
        lemma_pow10_pos((n - 1) as nat);
    }
}

/// The digit-generation invariant: after producing the digits, what has
/// been produced and what remains account exactly for the fraction.
pub proof fn lemma_frac_digits(f: int, j: nat)
    requires
        0 <= f < 4096,
    ensures
        frac_digit_seq(f, j).len() == j,
        all_digits(frac_digit_seq(f, j)),
        exists|rem: int|
            0 <= rem < 4096 && #[trigger] (digits_val(frac_digit_seq(f, j)) * 4096 + rem) == f
                * pow10(j),
    decreases j,
{
    let s = frac_digit_seq(f, j);
    if j == 0 {
        assert(digits_val(s) == 0);
        assert(pow10(0) == 1);
        assert(digits_val(s) * 4096 + f == f * pow10(0));
    } else {
        let d = f * 10 / 4096;
        let f2 = f * 10 % 4096;
        vstd::arithmetic::div_mod::lemma_fundamental_div_mod(f * 10, 4096);
        assert(0 <= f2 < 4096) by {
            vstd::arithmetic::div_mod::lemma_mod_bound(f * 10, 4096);
        }
        assert(0 <= d <= 9) by (nonlinear_arith)
            requires
                f * 10 == 4096 * d + f2,
                0 <= f2 < 4096,
                0 <= f < 4096,
        ;
        assert(f * 10 == d * 4096 + f2) by (nonlinear_arith)
            requires
                f * 10 == 4096 * d + f2,
        ;
        lemma_digit_char_val(d);
        lemma_frac_digits(f2, (j - 1) as nat);
        let tail = frac_digit_seq(f2, (j - 1) as nat);
        assert(s =~= seq![digit_char(d)] + tail);
        assert forall|i: int| 0 <= i < s.len() implies is_digit(#[trigger] s[i]) by {
            if i > 0 {
                assert(s[i] == tail[i - 1]);
            }
        }
        let rem = choose|rem: int|
            0 <= rem < 4096 && #[trigger] (digits_val(tail) * 4096 + rem) == f2 * pow10(
                (j - 1) as nat,
            );
        // value of the whole digit string from the prefix digit and the tail
        lemma_digits_val_prepend(d, tail);
        assert(digits_val(s) == d * pow10(tail.len()) + digits_val(tail));
        assert(digits_val(s) * 4096 + rem == f * pow10(j)) by (nonlinear_arith)
            requires
                digits_val(s) == d * pow10((j - 1) as nat) + digits_val(tail),
                tail.len() == j - 1,
                digits_val(tail) * 4096 + rem == f2 * pow10((j - 1) as nat),
                f * 10 == d * 4096 + f2,
                pow10(j) == 10 * pow10((j - 1) as nat),
        ;
    }
}

/// Prepending a digit multiplies the tail's contribution by one and adds
/// the digit at the highest place.
proof fn lemma_digits_val_prepend(d: int, tail: Seq<char>)
    requires
        0 <= d <= 9,
    ensures
        digits_val(seq![digit_char(d)] + tail) == d * pow10(tail.len()) + digits_val(tail),
    decreases tail.len(),
{
    lemma_digit_char_val(d);
    let s = seq![digit_char(d)] + tail;
    if tail.len() == 0 {
        assert(s =~= seq![digit_char(d)]);
        assert(s.drop_last() =~= Seq::<char>::empty());
        assert(s.last() == digit_char(d));
        assert(digits_val(s.drop_last()) == 0);
        assert(pow10(0) == 1);
        assert(digits_val(s) == digits_val(s.drop_last()) * 10 + digit_val(s.last()));
        assert(digits_val(s) == d);
    } else {
        assert(s.drop_last() =~= seq![digit_char(d)] + tail.drop_last());
        assert(s.last() == tail.last());
        lemma_digits_val_prepend(d, tail.drop_last());
        assert(digits_val(s) == (d * pow10((tail.len() - 1) as nat) + digits_val(
            tail.drop_last(),
        )) * 10 + digit_val(tail.last()));
        assert(digits_val(tail) == digits_val(tail.drop_last()) * 10 + digit_val(tail.last()));
        assert((d * pow10((tail.len() - 1) as nat) + digits_val(tail.drop_last())) * 10
            + digit_val(tail.last()) == d * (10 * pow10((tail.len() - 1) as nat)) + (digits_val(
            tail.drop_last(),
        ) * 10 + digit_val(tail.last()))) by (nonlinear_arith);
        assert(pow10(tail.len()) == 10 * pow10((tail.len() - 1) as nat));
    }
}

/// Trimming trailing zeros divides the denoted value by a power of ten.
pub proof fn lemma_trim_zeros(s: Seq<char>)
    requires
        s.len() >= 1,
        all_digits(s),
    ensures
        1 <= trim_zeros(s).len() <= s.len(),
        all_digits(trim_zeros(s)),
        digits_val(s) == digits_val(trim_zeros(s)) * pow10((s.len() - trim_zeros(s).len()) as nat),
        trim_zeros(s).len() == 1 || trim_zeros(s).last() != '0',
        trim_zeros(trim_zeros(s)) == trim_zeros(s),
    decreases s.len(),
{
    let t = trim_zeros(s);
    if s.len() <= 1 {
        assert(pow10(0) == 1);
        assert(digits_val(s) == digits_val(t) * pow10(0));
    } else if s.last() == '0' {
        assert(all_digits(s.drop_last())) by {
            assert(forall|i: int|
                0 <= i < s.drop_last().len() ==> #[trigger] s.drop_last()[i] == s[i]);
        }
        lemma_trim_zeros(s.drop_last());
        assert(digits_val(s) == digits_val(s.drop_last()) * 10);
        let k = (s.len() - 1 - t.len()) as nat;
        assert(digits_val(s.drop_last()) == digits_val(t) * pow10(k));
        assert(digits_val(t) * pow10(k) * 10 == digits_val(t) * (10 * pow10(k)))
            by (nonlinear_arith);
        assert(pow10((s.len() - t.len()) as nat) == 10 * pow10(k));
    } else {
        assert(pow10(0) == 1);
        assert(digits_val(s) == digits_val(t) * pow10(0));
    }
}

/// Scanning a run of digits followed by a point finds the point.
proof fn lemma_first_non_digit_concat(a: Seq<char>, rest: Seq<char>, i: int)
    requires
        all_digits(a),
        rest.len() >= 1,
        !is_digit(rest[0]),
        0 <= i <= a.len(),
    ensures
        first_non_digit(a + rest, i) == Some(a.len() as int),
    decreases a.len() - i,
{
    let s = a + rest;
    if i < a.len() {
        assert(s[i] == a[i]);
        lemma_first_non_digit_concat(a, rest, i + 1);
    } else {
        assert(s[i] == rest[0]);
    }
}

/// Rendering a representable fixed-point value and parsing the text back
/// recovers the value exactly.
pub proof fn lemma_decimal_round_trip(raw: int)
    requires
        i32::MIN <= raw <= i32::MAX,
    ensures
        parse_dec(dec_text(raw)) == Some(raw),
{
    let mag = if raw < 0 {
        -raw
    } else {
        raw
    };
    let q = (mag / 4096) as nat;
    let f = mag % 4096;
    vstd::arithmetic::div_mod::lemma_fundamental_div_mod(mag, 4096);
    lemma_nat_text_val(q);
    let ipart_text = nat_text(q);
    let full = frac_digit_seq(f, 12);
    lemma_frac_digits(f, 12);
    lemma_trim_zeros(full);
    let ftrim = trim_zeros(full);
    let body = ipart_text + seq!['.'] + ftrim;
    assert(mag_text(mag) == body);
    let s = dec_text(raw);
    // sign handling: the body is recovered unchanged
    if raw < 0 {
        assert(s == seq!['-'] + body);
        assert(s[0] == '-');
        assert(!is_digit('-'));
        assert(s.len() > 0);
        assert(s.drop_first() =~= body);
    } else {
        assert(s == body);
        assert(body[0] == ipart_text[0]);
        assert(is_digit(body[0]));
        assert(s[0] != '-');
    }
    // the first non-digit of the body is the point
    let dot_rest = seq!['.'] + ftrim;
    assert(body =~= ipart_text + dot_rest);
    assert(!is_digit('.'));
    lemma_first_non_digit_concat(ipart_text, dot_rest, 0);
    let d = ipart_text.len() as int;
    assert(first_non_digit(body, 0) == Some(d));
    assert(body[d] == '.');
    assert(1 <= d < body.len());
    assert(d + 1 < body.len());
    // the components are recovered
    assert(body.subrange(0, d) =~= ipart_text);
    assert(body.subrange(d + 1, body.len() as int) =~= ftrim);
    assert(digits_val(ipart_text) == q);
    assert(trim_zeros(ftrim) == ftrim);
    assert(ftrim.len() <= 12);
    // the fraction digits denote exactly f
    let m = ftrim.len();
    let t = (12 - m) as nat;
    let rem = choose|rem: int|
        0 <= rem < 4096 && #[trigger] (digits_val(full) * 4096 + rem) == f * pow10(12);
    assert(pow10(12) == 4096 * 244140625) by {
        reveal_with_fuel(pow10, 13);
    }
    assert(rem == 0) by (nonlinear_arith)
        requires
            digits_val(full) * 4096 + rem == f * (4096 * 244140625),
            0 <= rem < 4096,
    ;
    assert(digits_val(full) == digits_val(ftrim) * pow10(t));
    assert(pow10(12) == pow10(m) * pow10(t)) by {
        lemma_pow10_mul(m, t);
    }
    lemma_pow10_pos(t);
    lemma_pow10_pos(m);
    assert(digits_val(ftrim) * 4096 == f * pow10(m)) by (nonlinear_arith)
        requires
            digits_val(ftrim) * pow10(t) * 4096 == f * (pow10(m) * pow10(t)),
            pow10(t) >= 1,
    ;
    let fval = digits_val(ftrim);
    assert((fval * 4096) % (pow10(m) as int) == 0 && (fval * 4096) / (pow10(m) as int) == f)
        by (nonlinear_arith)
        requires
            fval * 4096 == f * pow10(m),
            pow10(m) >= 1,
            0 <= f < 4096,
    ;
    assert(q * 4096 + f == mag);
}

proof fn lemma_pow10_mul(a: nat, b: nat)
    ensures
        pow10(a + b) == pow10(a) * pow10(b),
    decreases a,
{
    if a == 0 {
        assert(pow10(0 + b) == 1 * pow10(b)) by (nonlinear_arith)
            requires
                pow10((0 + b) as nat) == pow10(b),
        ;
    } else {
        lemma_pow10_mul((a - 1) as nat, b);
        assert(((a + b) - 1) as nat == ((a - 1) + b) as nat);
        assert(pow10(a + b) == 10 * (pow10((a - 1) as nat) * pow10(b)));
        assert(10 * (pow10((a - 1) as nat) * pow10(b)) == (10 * pow10((a - 1) as nat)) * pow10(
            b,
        )) by (nonlinear_arith);
    }
}

pub proof fn lemma_pow10_le(a: nat, b: nat)
    requires
        a <= b,
    ensures
        pow10(a) <= pow10(b),
    decreases b,
{
    if a < b {
        lemma_pow10_le(a, (b - 1) as nat);
        lemma_pow10_pos((b - 1) as nat);
    }
}

/// A digit string's value is non-negative and below ten to its length.
pub proof fn lemma_digits_val_bound(s: Seq<char>)
    requires
        all_digits(s),
    ensures
        0 <= digits_val(s) < pow10(s.len()),
    decreases s.len(),
{
    if s.len() == 0 {
    } else {
        assert(all_digits(s.drop_last())) by {
            assert(forall|i: int|
                0 <= i < s.drop_last().len() ==> #[trigger] s.drop_last()[i] == s[i]);
        }
        lemma_digits_val_bound(s.drop_last());
        assert(is_digit(s.last()));
        assert(digits_val(s) < pow10(s.len())) by (nonlinear_arith)
            requires
                digits_val(s) == digits_val(s.drop_last()) * 10 + digit_val(s.last()),
                0 <= digits_val(s.drop_last()) < pow10((s.len() - 1) as nat),
                0 <= digit_val(s.last()) <= 9,
                pow10(s.len()) == 10 * pow10((s.len() - 1) as nat),
        ;
    }
}

impl Decimal {
    /// Parses exact decimal text: an optional sign, an integer part, a
    /// point, and fraction digits denoting an exact multiple of
    /// `1 / 4096` that fits the representation; anything else is `None`.
    pub fn from_text(s: &str) -> (r: Option<Decimal>)
        ensures
            match r {
                Some(d) => parse_dec(s@) == Some(d.raw as int),
                None => parse_dec(s@) is None,
            },
    {
        let chars = chars_of(s);
        Self::parse_chars(&chars)
    }

    /// Parses exact decimal text given as characters.
    pub fn parse_chars(chars: &Vec<char>) -> (r: Option<Decimal>)
        ensures
            match r {
                Some(d) => parse_dec(chars@) == Some(d.raw as int),
                None => parse_dec(chars@) is None,
            },
    {
        let n = chars.len();
        let neg = n > 0 && chars[0] == '-';
        let start: usize = if neg {
            1
        } else {
            0
        };
        let ghost body = if neg {
            chars@.drop_first()
        } else {
            chars@
        };
        proof {
            assert(body.len() == n - start);
            assert(forall|k: int| 0 <= k < body.len() ==> body[k] == chars@[k + start]);
        }
        let mut i: usize = start;
        let mut ival: u64 = 0;
        let mut big = false;
        proof {
            assert(body.take(0) =~= Seq::<char>::empty());
        }
        loop
            invariant_except_break
                start <= i <= n,
                n == chars@.len(),
                neg <==> (chars@.len() > 0 && chars@[0] == '-'),
                start == (if neg {
                    1int
                } else {
                    0int
                }),
                body == (if neg {
                    chars@.drop_first()
                } else {
                    chars@
                }),
                all_digits(body.take(i - start)),
                first_non_digit(body, 0) == first_non_digit(body, i - start),
                !big ==> ival == digits_val(body.take(i - start)),
                big ==> digits_val(body.take(i - start)) > 524288,
                ival <= 5242889,
            ensures
                start <= i <= n,
                all_digits(body.take(i - start)),
                first_non_digit(body, 0) == first_non_digit(body, i - start),
                !big ==> ival == digits_val(body.take(i - start)),
                big ==> digits_val(body.take(i - start)) > 524288,
                ival <= 5242889,
                i == n || !is_digit(body[i - start]),
            decreases n - i,
        {
            if i >= n {
                proof {
                    assert(i == n);
                }
                break ;
            }
            proof {
                assert(body[i - start] == chars@[i as int]);
            }
            let c = chars[i];
            if !crate::text::is_digit_exec(c) {
                break ;
            }
            let dv = crate::text::digit_val_exec(c);
            let ghost prev = body.take(i - start);
            proof {
                lemma_digits_val_bound(prev);
            }
            if big || ival > 524288 {
                big = true;
            } else {
                ival = ival * 10 + dv;
            }
            i += 1;
            proof {
                let cur = body.take(i - start);
                assert(cur.drop_last() =~= prev);
                assert(cur.last() == body[i - start - 1]);
                assert(digits_val(cur) == digits_val(prev) * 10 + digit_val(cur.last()));
                assert(all_digits(cur)) by {
                    assert(forall|k: int|
                        0 <= k < cur.len() - 1 ==> #[trigger] cur[k] == prev[k]);
                }
                assert(first_non_digit(body, i - start - 1) == first_non_digit(body, i - start));
            }
        }
        if i >= n {
            proof {
                assert(body.take(i - start) =~= body);
                assert(first_non_digit(body, i - start) is None);
            }
            return None;
        }
        let ghost d = (i - start) as int;
        proof {
            assert(first_non_digit(body, d) == Some(d));
            assert(first_non_digit(body, 0) == Some(d));
        }
        if i == start {
            proof {
                assert(!(1 <= d));
            }
            return None;
        }
        if chars[i] != '.' {
            proof {
                assert(body[d] == chars@[i as int]);
                assert(body[d] != '.');
            }
            return None;
        }
        proof {
            assert(body[d] == '.');
        }
        let mut j = i + 1;
        let mut fd: Vec<char> = Vec::new();
        proof {
            assert(fd@ =~= body.subrange(d + 1, j - start));
        }
        loop
            invariant_except_break
                i + 1 <= j <= n,
                n == chars@.len(),
                start + 1 <= i < n,
                d == i - start,
                body == (if neg {
                    chars@.drop_first()
                } else {
                    chars@
                }),
                start == (if neg {
                    1int
                } else {
                    0int
                }),
                fd@ == body.subrange(d + 1, j - start),
                all_digits(fd@),
            ensures
                i + 1 <= j <= n,
                fd@ == body.subrange(d + 1, j - start),
                all_digits(fd@),
                j == n || !is_digit(body[j - start]),
            decreases n - j,
        {
            if j >= n {
                break ;
            }
            proof {
                assert(body[j - start] == chars@[j as int]);
            }
            let c = chars[j];
            if !crate::text::is_digit_exec(c) {
                break ;
            }
            let ghost prev = fd@;
            fd.push(c);
            j += 1;
            proof {
                assert(fd@ =~= body.subrange(d + 1, j - start));
            }
        }
        let ghost frac = body.subrange(d + 1, body.len() as int);
        if j < n {
            proof {
                assert(frac[j - start - d - 1] == body[j - start]);
                assert(!all_digits(frac));
            }
            return None;
        }
        if fd.len() == 0 {
            proof {
                assert(!(d + 1 < body.len()));
            }
            return None;
        }
        proof {
            assert(fd@ =~= frac);
            lemma_trim_zeros(frac);
        }
        // trim trailing zeros, keeping at least one digit
        loop
            invariant_except_break
                fd@.len() >= 1,
                trim_zeros(frac) == trim_zeros(fd@),
            ensures
                fd@ == trim_zeros(frac),
            decreases fd@.len(),
        {
            if fd.len() > 1 {
                let last = fd[fd.len() - 1];
                if last == '0' {
                    proof {
                        assert(fd@.last() == '0');
                    }
                    fd.pop();
                    continue ;
                }
                proof {
                    assert(fd@.last() != '0');
                }
            }
            break ;
        }
        let m = fd.len();
        if m > 12 {
            return None;
        }
        proof {
            assert(all_digits(fd@));
        }
        // the fraction's value and scale
        let mut fval: u64 = 0;
        let mut k: usize = 0;
        proof {
            assert(fd@.take(0) =~= Seq::<char>::empty());
        }
        while k < m
            invariant
                k <= m,
                m == fd@.len(),
                m <= 12,
                all_digits(fd@),
                fval == digits_val(fd@.take(k as int)),
                fval < pow10(k as nat),
            decreases m - k,
        {
            let ghost prev = fd@.take(k as int);
            proof {
                assert(all_digits(prev)) by {
                    assert(forall|w: int| 0 <= w < prev.len() ==> #[trigger] prev[w] == fd@[w]);
                }
                lemma_digits_val_bound(prev);
                lemma_pow10_le(k as nat, 11);
                assert(pow10(11) == 100000000000) by {
                    reveal_with_fuel(pow10, 13);
                }
            }
            fval = fval * 10 + crate::text::digit_val_exec(fd[k]);
            k += 1;
            proof {
                let cur = fd@.take(k as int);
                assert(cur.drop_last() =~= prev);
                assert(cur.last() == fd@[k - 1]);
                assert(digits_val(cur) == digits_val(prev) * 10 + digit_val(cur.last()));
                assert(fval < pow10(k as nat)) by (nonlinear_arith)
                    requires
                        fval == digits_val(prev) * 10 + digit_val(cur.last()),
                        digits_val(prev) < pow10((k - 1) as nat),
                        0 <= digit_val(cur.last()) <= 9,
                        pow10(k as nat) == 10 * pow10((k - 1) as nat),
                        digits_val(prev) >= 0,
                ;
            }
        }
        proof {
            assert(fd@.take(m as int) =~= fd@);
            lemma_pow10_le(m as nat, 12);
            assert(pow10(12) == 1000000000000) by {
                reveal_with_fuel(pow10, 13);
            }
        }
        let mut pw: u64 = 1;
        let mut k2: usize = 0;
        while k2 < m
            invariant
                k2 <= m,
                m <= 12,
                pw == pow10(k2 as nat),
            decreases m - k2,
        {
            proof {
                lemma_pow10_le(k2 as nat, 11);
                assert(pow10(11) == 100000000000) by {
                    reveal_with_fuel(pow10, 13);
                }
            }
            pw = pw * 10;
            k2 += 1;
        }
        let fx = fval * 4096;
        if fx % pw != 0 {
            return None;
        }
        let f = fx / pw;
        proof {
            lemma_pow10_pos(m as nat);
        }
        if big || ival > 524288 {
            proof {
                let ipart = digits_val(body.subrange(0, d));
                assert(body.subrange(0, d) =~= body.take(d));
                assert(ipart > 524288);
                let fq = (fval * 4096) as int / (pow10(m as nat) as int);
                assert(fq >= 0) by (nonlinear_arith)
                    requires
                        fq == (fval * 4096) as int / (pow10(m as nat) as int),
                        fval >= 0,
                        pow10(m as nat) >= 1,
                ;
                assert(ipart * 4096 + fq > 2147483648) by (nonlinear_arith)
                    requires
                        ipart > 524288,
                        fq >= 0,
                ;
            }
            return None;
        }
        let mag: u64 = ival * 4096 + f;
        proof {
            assert(body.subrange(0, d) =~= body.take(d));
            assert(f == (fval * 4096) as int / (pow10(m as nat) as int));
            assert(f < 4096) by (nonlinear_arith)
                requires
                    f == (fval * 4096) as int / (pow10(m as nat) as int),
                    fval < pow10(m as nat),
                    pow10(m as nat) >= 1,
                    fval >= 0,
            ;
        }
        if neg {
            if mag > 2147483648 {
                return None;
            }
            let raw: i32 = (-(mag as i64)) as i32;
            Some(Decimal { raw })
        } else {
            if mag > 2147483647 {
                return None;
            }
            Some(Decimal { raw: mag as i32 })
        }
    }

    /// The exact decimal text of this value.
    pub fn to_text(&self) -> (r: String)
        ensures
            r@ == dec_text(self.raw as int),
    {
        let chars = self.dec_chars();
        string_from_chars(&chars)
    }

    /// The exact decimal text of this value, as characters.
    pub fn dec_chars(&self) -> (r: Vec<char>)
        ensures
            r@ == dec_text(self.raw as int),
    {
        let mag: u64 = if self.raw < 0 {
            (-(self.raw as i64)) as u64
        } else {
            self.raw as u64
        };
        let q = mag / 4096;
        let f = mag % 4096;
        proof {
            vstd::arithmetic::div_mod::lemma_fundamental_div_mod(mag as int, 4096);
        }
        let mut out: Vec<char> = Vec::new();
        if self.raw < 0 {
            out.push('-');
        }
        let mut ip = nat_to_chars(q);
        out.append(&mut ip);
        out.push('.');
        // twelve exact fraction digits
        let mut fd: Vec<char> = Vec::new();
        let mut rem: u64 = f;
        let mut j: usize = 0;
        proof {
            assert(frac_digit_seq(f as int, 12) =~= fd@ + frac_digit_seq(rem as int, 12));
        }
        while j < 12
            invariant
                j <= 12,
                rem < 4096,
                fd@.len() == j,
                frac_digit_seq(f as int, 12) == fd@ + frac_digit_seq(rem as int, (12 - j) as nat),
            decreases 12 - j,
        {
            let ghost prev_rem = rem as int;
            let ghost prev_fd = fd@;
            let digit = rem * 10 / 4096;
            rem = rem * 10 % 4096;
            fd.push(digit_char_exec(digit));
            j += 1;
            proof {
                assert(digit < 10) by (nonlinear_arith)
                    requires
                        prev_rem < 4096,
                        digit == prev_rem * 10 / 4096,
                        prev_rem >= 0,
                ;
                assert(frac_digit_seq(prev_rem, (12 - j + 1) as nat) == seq![digit_char(
                    prev_rem * 10 / 4096,
                )] + frac_digit_seq(prev_rem * 10 % 4096, (12 - j) as nat));
                assert(fd@ + frac_digit_seq(rem as int, (12 - j) as nat) =~= prev_fd
                    + frac_digit_seq(prev_rem, (12 - j + 1) as nat));
            }
        }
        proof {
            assert(frac_digit_seq(rem as int, 0) =~= Seq::<char>::empty());
            assert(fd@ =~= frac_digit_seq(f as int, 12));
        }
        // trim trailing zeros, keeping at least one digit
        loop
            invariant_except_break
                fd@.len() >= 1,
                trim_zeros(frac_digit_seq(f as int, 12)) == trim_zeros(fd@),
            ensures
                fd@ == trim_zeros(frac_digit_seq(f as int, 12)),
            decreases fd@.len(),
        {
            if fd.len() > 1 {
                let last = fd[fd.len() - 1];
                if last == '0' {
                    proof {
                        assert(fd@.last() == '0');
                    }
                    fd.pop();
                    continue ;
                }
                proof {
                    assert(fd@.last() != '0');
                }
            }
            break ;
        }
        let mut result = out;
        result.append(&mut fd);
        proof {
            assert(result@ =~= dec_text(self.raw as int));
        }
        result
    }
}

/// Every character of a value's decimal text is a digit, a point, or a
/// sign, and the text starts with a sign or digit.
pub proof fn lemma_dec_text_chars(raw: int)
    ensures
        dec_text(raw).len() >= 3,
        forall|k: int|
            0 <= k < dec_text(raw).len() ==> (is_digit(#[trigger] dec_text(raw)[k]) || dec_text(
                raw,
            )[k] == '.' || dec_text(raw)[k] == '-'),
        !(dec_text(raw)[0] == ' ' || dec_text(raw)[0] == chr_nl() || dec_text(raw)[0] == chr_tab()
            || dec_text(raw)[0] == chr_cr()),
{
    let mag = if raw < 0 {
        -raw
    } else {
        raw
    };
    let q = (mag / 4096) as nat;
    let f = mag % 4096;
    vstd::arithmetic::div_mod::lemma_fundamental_div_mod(mag, 4096);
    lemma_nat_text_val(q);
    let full = frac_digit_seq(f, 12);
    lemma_frac_digits(f, 12);
    lemma_trim_zeros(full);
    let it = nat_text(q);
    let ft = trim_zeros(full);
    let body = it + seq!['.'] + ft;
    assert(mag_text(mag) == body);
    assert forall|k: int| 0 <= k < body.len() implies (is_digit(#[trigger] body[k]) || body[k]
        == '.' || body[k] == '-') by {
        if k < it.len() {
            assert(body[k] == it[k]);
        } else if k == it.len() {
            assert(body[k] == '.');
        } else {
            assert(body[k] == ft[k - it.len() - 1]);
        }
    }
    assert(body[0] == it[0]);
    assert(is_digit(body[0]));
    if raw < 0 {
        let s = dec_text(raw);
        assert(s == seq!['-'] + body);
        assert forall|k: int| 0 <= k < s.len() implies (is_digit(#[trigger] s[k]) || s[k] == '.'
            || s[k] == '-') by {
            if k > 0 {
                assert(s[k] == body[k - 1]);
            }
        }
        assert(s[0] == '-');
    }
}

/// The newline character.
pub open spec fn chr_nl() -> char {
    '\n'
}

/// The tab character.
pub open spec fn chr_tab() -> char {
    '\t'
}

/// The carriage-return character.
pub open spec fn chr_cr() -> char {
    '\r'
}

} // verus!
