use vstd::prelude::*;

verus! {

use vstd::arithmetic::div_mod::{lemma_fundamental_div_mod, lemma_mod_bound};
use vstd::arithmetic::mul::{lemma_mul_left_inequality, lemma_mul_upper_bound,
    lemma_mul_inequality};
use vstd::string::StrSliceExecFns;
use crate::errors::MathError;
use crate::math::{BigNumber, pow10, pow10_u64, lemma_pow10_pos, lemma_pow10_monotone,
    lemma_pow10_19};

/// Whether `c` is a decimal digit.
pub open spec fn is_digit(c: char) -> bool {
    48 <= c as int <= 57
}

/// The numeric value of a decimal digit character.
pub open spec fn digit_val(c: char) -> nat {
    (c as int - 48) as nat
}

/// Whether every character of `s` is a decimal digit.
pub open spec fn all_digits(s: Seq<char>) -> bool {
    forall|i: int| 0 <= i < s.len() ==> is_digit(#[trigger] s[i])
}

/// The number denoted by a sequence of digit characters, read base 10.
pub open spec fn digits_value(s: Seq<char>) -> nat
    decreases s.len(),
{
    if s.len() == 0 {
        0
    } else {
        10 * digits_value(s.drop_last()) + digit_val(s.last())
    }
}

/// A valid unsigned integer literal: nonempty, all digits, and a value
/// that fits the native magnitude width.
pub open spec fn valid_literal(s: Seq<char>) -> bool {
    &&& s.len() > 0
    &&& all_digits(s)
    &&& digits_value(s) <= u64::MAX
}

/// The index of the first decimal point at or after position `i`,
/// or -1 if there is none.
pub open spec fn find_dot(s: Seq<char>, i: int) -> int
    decreases s.len() - i,
{
    if i < 0 || i >= s.len() {
        -1
    } else if s[i] == '.' {
        i
    } else {
        find_dot(s, i + 1)
    }
}

/// What parsing a decimal text yields: the text splits on the decimal
/// point; the integer and fractional parts must each be valid unsigned
/// integer literals; the fractional digit count becomes the scale, and the
/// magnitude is `integer * 10^scale + fraction`, which must be
/// representable.
pub open spec fn parse_decimal(s: Seq<char>) -> Result<BigNumber, MathError> {
    let d = find_dot(s, 0);
    if d == -1 {
        if valid_literal(s) {
            Ok(BigNumber { value: digits_value(s) as u64, exp: 0 })
        } else {
            Err(MathError::NumberParsingFailed)
        }
    } else {
        let ip = s.subrange(0, d);
        let fp = s.subrange(d + 1, s.len() as int);
        if valid_literal(ip) && valid_literal(fp) && fp.len() <= 255 && digits_value(ip) * pow10(
            fp.len(),
        ) + digits_value(fp) <= u64::MAX {
            Ok(
                BigNumber {
                    value: (digits_value(ip) * pow10(fp.len()) + digits_value(fp)) as u64,
                    exp: fp.len() as u8,
                },
            )
        } else {
            Err(MathError::NumberParsingFailed)
        }
    }
}

/// Splitting a digit string splits its value positionally:
/// the head digits weigh `10^(length of the tail)`.
pub proof fn lemma_digits_value_split(p: Seq<char>, q: Seq<char>)
    ensures
        digits_value(p + q) == digits_value(p) * pow10(q.len()) + digits_value(q),
    decreases q.len(),
{
    if q.len() == 0 {
        assert(p + q =~= p);
        assert(pow10(0) == 1);
    } else {
        let q2 = q.drop_last();
        assert((p + q).drop_last() =~= p + q2);
        assert((p + q).last() == q.last());
        lemma_digits_value_split(p, q2);
        let x = digits_value(p);
        let y = pow10(q2.len());
        assert(pow10(q.len()) == 10 * y);
        assert(10 * (x * y) == x * (10 * y)) by (nonlinear_arith);
    }
}

/// A digit string's value only grows when more digits are appended.
pub proof fn lemma_digits_value_prefix(p: Seq<char>, q: Seq<char>)
    ensures
        digits_value(p + q) >= digits_value(p),
{
    lemma_digits_value_split(p, q);
    lemma_pow10_pos(q.len());
    if digits_value(p) > 0 {
        lemma_mul_left_inequality(digits_value(p) as int, 1, pow10(q.len()) as int);
    }
}

/// Scanning for the first decimal point: if no position before `k` holds
/// one, and `k` is either the end or a point, the first point is at `k`
/// (or nowhere).
pub proof fn lemma_find_dot_scan(s: Seq<char>, i: int, k: int)
    requires
        0 <= i <= k <= s.len(),
        forall|j: int| i <= j < k ==> #[trigger] s[j] != '.',
        k == s.len() || s[k] == '.',
    ensures
        find_dot(s, i) == if k == s.len() {
            -1int
        } else {
            k
        },
    decreases k - i,
{
    if i < k {
        lemma_find_dot_scan(s, i + 1, k);
    } else if i == k && k < s.len() {
    }
}

/// Parse the characters of `s` in `[from, to)` as an unsigned base-10
/// integer; `None` exactly when that range is not a representable
/// unsigned integer literal.
fn parse_digits(s: &str, from: usize, to: usize) -> (r: Option<u64>)
    requires
        from <= to <= s@.len(),
    ensures
        match r {
            Some(v) => valid_literal(s@.subrange(from as int, to as int)) && v == digits_value(
                s@.subrange(from as int, to as int),
            ),
            None => !valid_literal(s@.subrange(from as int, to as int)),
        },
{
    let ghost whole = s@.subrange(from as int, to as int);
    if from == to {
        return None;
    }
    let mut acc: u64 = 0;
    let mut i: usize = from;
    while i < to
        invariant
            from <= i <= to <= s@.len(),
            all_digits(s@.subrange(from as int, i as int)),
            acc == digits_value(s@.subrange(from as int, i as int)),
            whole == s@.subrange(from as int, to as int),
        decreases to - i,
    {
        let c = s.get_char(i);
        let u = c as u32;
        let ghost prefix = s@.subrange(from as int, i as int);
        let ghost prefix1 = s@.subrange(from as int, i as int + 1);
        proof {
            assert(prefix1.drop_last() =~= prefix);
            assert(prefix1.last() == s@[i as int]);
        }
        if u < 48 || u > 57 {
            proof {
                assert(whole[i - from] == s@[i as int]);
                assert(!is_digit(s@[i as int]));
            }
            return None;
        }
        let d = (u - 48) as u64;
        proof {
            assert(is_digit(s@[i as int]));
            assert(digit_val(s@[i as int]) == d);
            assert(digits_value(prefix1) == 10 * acc + d);
        }
        if acc > (u64::MAX - d) / 10 {
            proof {
                lemma_fundamental_div_mod(u64::MAX - d, 10);
                lemma_mod_bound(u64::MAX - d, 10);
                assert(10 * acc + d > u64::MAX);
                assert(whole =~= prefix1 + s@.subrange(i as int + 1, to as int));
                lemma_digits_value_prefix(prefix1, s@.subrange(i as int + 1, to as int));
                assert(digits_value(whole) > u64::MAX);
            }
            return None;
        }
        proof {
            lemma_fundamental_div_mod(u64::MAX - d, 10);
            lemma_mod_bound(u64::MAX - d, 10);
            assert(10 * acc + d <= u64::MAX);
        }
        acc = acc * 10 + d;
        i = i + 1;
        proof {
            assert(s@.subrange(from as int, i as int) =~= prefix1);
        }
    }
    proof {
        assert(s@.subrange(from as int, i as int) =~= whole);
    }
    Some(acc)
}

impl BigNumber {
    /// Parse a decimal text: the integer and fractional parts around the
    /// decimal point are each read as unsigned base-10 integers, the
    /// fractional digit count becomes the scale, and the magnitude is
    /// `integer * 10^scale + fraction`. Any other shape, or a value that
    /// does not fit, fails with `NumberParsingFailed`.
    pub fn new_from_string(text: &String) -> (r: Result<Self, MathError>)
        ensures
            r == parse_decimal(text@),
    {
        let s = text.as_str();
        let len = s.unicode_len();
        // Find the first decimal point, if any.
        let mut dot: usize = len;
        let mut i: usize = 0;
        while i < len && dot == len
            invariant
                0 <= i <= len == s@.len(),
                dot == len || (dot < i && s@[dot as int] == '.'),
                dot == len ==> forall|j: int| 0 <= j < i ==> #[trigger] s@[j] != '.',
                dot < len ==> forall|j: int| 0 <= j < dot ==> #[trigger] s@[j] != '.',
            decreases len - i,
        {
            let c = s.get_char(i);
            if c == '.' {
                proof {
                    reveal_strlit(".");
                }
                dot = i;
            }
            i = i + 1;
        }
        proof {
            reveal_strlit(".");
            if dot == len {
                lemma_find_dot_scan(s@, 0, len as int);
            } else {
                lemma_find_dot_scan(s@, 0, dot as int);
            }
        }
        if dot == len {
            proof {
                assert(s@.subrange(0, len as int) =~= s@);
            }
            // No decimal point: the whole text is the integer part.
            match parse_digits(s, 0, len) {
                Some(v) => Ok(BigNumber { value: v, exp: 0 }),
                None => Err(MathError::NumberParsingFailed),
            }
        } else {
            let ghost ip = s@.subrange(0, dot as int);
            let ghost fp = s@.subrange(dot as int + 1, len as int);
            let ipv = match parse_digits(s, 0, dot) {
                Some(v) => v,
                None => {
                    return Err(MathError::NumberParsingFailed);
                },
            };
            let fpv = match parse_digits(s, dot + 1, len) {
                Some(v) => v,
                None => {
                    return Err(MathError::NumberParsingFailed);
                },
            };
            let flen = len - dot - 1;
            if flen > 255 {
                return Err(MathError::NumberParsingFailed);
            }
            if ipv == 0 {
                // 0 * 10^flen + fpv == fpv, always representable.
                return Ok(BigNumber { value: fpv, exp: flen as u8 });
            }
            if flen > 19 {
                // ipv >= 1, so the magnitude would be at least 10^20.
                proof {
                    lemma_pow10_monotone(20, flen as nat);
                    lemma_pow10_19();
                    assert(pow10(20) == 10 * pow10(19));
                    lemma_mul_inequality(1, ipv as int, pow10(flen as nat) as int);
                }
                return Err(MathError::NumberParsingFailed);
            }
            let factor = pow10_u64(flen as u32);
            proof {
                lemma_pow10_19();
                lemma_pow10_monotone(flen as nat, 19);
                lemma_mul_upper_bound(
                    ipv as int,
                    u64::MAX as int,
                    factor as int,
                    pow10(19) as int,
                );
            }
            let wide: u128 = (ipv as u128) * (factor as u128) + (fpv as u128);
            if wide > u64::MAX as u128 {
                return Err(MathError::NumberParsingFailed);
            }
            Ok(BigNumber { value: wide as u64, exp: flen as u8 })
        }
    }
}

/// The digit character for a value below ten.
pub open spec fn digit_char(d: nat) -> char {
    if d == 0 {
        '0'
    } else if d == 1 {
        '1'
    } else if d == 2 {
        '2'
    } else if d == 3 {
        '3'
    } else if d == 4 {
        '4'
    } else if d == 5 {
        '5'
    } else if d == 6 {
        '6'
    } else if d == 7 {
        '7'
    } else if d == 8 {
        '8'
    } else {
        '9'
    }
}

/// The base-10 digit string of `n`, most significant digit first;
/// empty for zero.
pub open spec fn digit_seq(n: nat) -> Seq<char>
    decreases n,
{
    if n == 0 {
        Seq::empty()
    } else {
        digit_seq(n / 10) + seq![digit_char(n % 10)]
    }
}

/// The digit string of `n` as rendered: `"0"` for zero, no leading
/// zeroes otherwise.
pub open spec fn to_digits(n: nat) -> Seq<char> {
    if n == 0 {
        seq!['0']
    } else {
        digit_seq(n)
    }
}

/// `k` zero characters.
pub open spec fn zeroes(k: nat) -> Seq<char>
    decreases k,
{
    if k == 0 {
        Seq::empty()
    } else {
        zeroes((k - 1) as nat) + seq!['0']
    }
}

/// What rendering a decimal yields: the magnitude's digit string, with a
/// decimal point inserted `exp` digits from the right when `exp > 0`,
/// left-padded with zeroes and prefixed with a leading `0` whenever the
/// integer part would otherwise be empty.
pub open spec fn render_decimal(v: nat, e: nat) -> Seq<char> {
    let ds = to_digits(v);
    if e == 0 {
        ds
    } else if ds.len() > e {
        ds.subrange(0, ds.len() - e) + seq!['.'] + ds.subrange(ds.len() - e, ds.len() as int)
    } else {
        seq!['0', '.'] + zeroes((e - ds.len()) as nat) + ds
    }
}

/// Every character of a digit string is a digit.
pub proof fn lemma_digit_seq_all_digits(n: nat)
    ensures
        all_digits(digit_seq(n)),
    decreases n,
{
    if n > 0 {
        lemma_digit_seq_all_digits(n / 10);
        assert(is_digit(digit_char(n % 10)));
    }
}

/// Reading a number's digit string back gives the number.
pub proof fn lemma_digit_seq_value(n: nat)
    ensures
        digits_value(digit_seq(n)) == n,
    decreases n,
{
    if n > 0 {
        lemma_digit_seq_value(n / 10);
        let s = digit_seq(n);
        assert(s.drop_last() =~= digit_seq(n / 10));
        assert(s.last() == digit_char(n % 10));
        assert(digit_val(digit_char(n % 10)) == n % 10);
        lemma_fundamental_div_mod(n as int, 10);
    }
}

/// A number is below ten to the power of its digit count.
pub proof fn lemma_digit_seq_len(n: nat)
    ensures
        n < pow10(digit_seq(n).len()),
        n > 0 ==> digit_seq(n).len() >= 1,
    decreases n,
{
    if n == 0 {
        assert(pow10(0) == 1);
    } else {
        lemma_digit_seq_len(n / 10);
        let k = digit_seq(n / 10).len();
        assert(digit_seq(n).len() == k + 1);
        lemma_fundamental_div_mod(n as int, 10);
        lemma_mod_bound(n as int, 10);
        assert(pow10(k + 1) == 10 * pow10(k));
    }
}

/// Zero padding has the announced length, contributes no value, and is
/// all digits.
pub proof fn lemma_zeroes(k: nat)
    ensures
        zeroes(k).len() == k,
        digits_value(zeroes(k)) == 0,
        all_digits(zeroes(k)),
    decreases k,
{
    if k > 0 {
        lemma_zeroes((k - 1) as nat);
        let s = zeroes(k);
        assert(s.drop_last() =~= zeroes((k - 1) as nat));
        assert(s.last() == '0');
        assert(digit_val('0') == 0);
        assert forall|i: int| 0 <= i < s.len() implies is_digit(#[trigger] s[i]) by {
            if i < k - 1 {
                assert(s[i] == zeroes((k - 1) as nat)[i]);
            }
        }
    }
}

/// Append the digit character for `d` to `out`.
fn append_digit(out: &mut String, d: u8)
    requires
        d < 10,
    ensures
        final(out)@ == old(out)@ + seq![digit_char(d as nat)],
{
    proof {
        reveal_strlit("0");
        reveal_strlit("1");
        reveal_strlit("2");
        reveal_strlit("3");
        reveal_strlit("4");
        reveal_strlit("5");
        reveal_strlit("6");
        reveal_strlit("7");
        reveal_strlit("8");
        reveal_strlit("9");
    }
    if d == 0 {
        out.append("0");
    } else if d == 1 {
        out.append("1");
    } else if d == 2 {
        out.append("2");
    } else if d == 3 {
        out.append("3");
    } else if d == 4 {
        out.append("4");
    } else if d == 5 {
        out.append("5");
    } else if d == 6 {
        out.append("6");
    } else if d == 7 {
        out.append("7");
    } else if d == 8 {
        out.append("8");
    } else {
        out.append("9");
    }
    proof {
        assert(out@ =~= old(out)@ + seq![digit_char(d as nat)]);
    }
}

/// Append the digit string of `v` to `out`, most significant digit first.
fn push_digits(out: &mut String, v: u64)
    ensures
        final(out)@ == old(out)@ + digit_seq(v as nat),
    decreases v,
{
    if v == 0 {
        proof {
            assert(out@ =~= old(out)@ + digit_seq(0));
        }
        return ;
    }
    push_digits(out, v / 10);
    append_digit(out, (v % 10) as u8);
    proof {
        assert(out@ =~= old(out)@ + digit_seq(v as nat));
    }
}

impl BigNumber {
    /// Render the decimal as text: the magnitude's digits with a decimal
    /// point inserted `exp` digits from the right, left-padded with zeroes
    /// and given a leading `0` whenever the value is below one.
    pub fn to_string(&self) -> (r: String)
        ensures
            r@ == render_decimal(self.value as nat, self.exp as nat),
    {
        let mut digits = String::new();
        if self.value == 0 {
            append_digit(&mut digits, 0);
        } else {
            push_digits(&mut digits, self.value);
        }
        proof {
            assert(digits@ =~= to_digits(self.value as nat));
        }
        if self.exp == 0 {
            return digits;
        }
        let e = self.exp as usize;
        let n = digits.as_str().unicode_len();
        let mut out = String::new();
        proof {
            reveal_strlit(".");
            reveal_strlit("0");
        }
        if n > e {
            let head = digits.as_str().substring_char(0, n - e);
            out.append(head);
            out.append(".");
            let tail = digits.as_str().substring_char(n - e, n);
            out.append(tail);
            proof {
                assert(out@ =~= render_decimal(self.value as nat, self.exp as nat));
            }
        } else {
            out.append("0");
            out.append(".");
            proof {
                assert(out@ =~= seq!['0', '.'] + zeroes(0));
            }
            let mut j: usize = 0;
            while j < e - n
                invariant
                    j <= e - n,
                    out@ == seq!['0', '.'] + zeroes(j as nat),
                decreases e - n - j,
            {
                proof {
                    reveal_strlit("0");
                }
                out.append("0");
                proof {
                    assert(out@ =~= seq!['0', '.'] + zeroes((j + 1) as nat));
                }
                j = j + 1;
            }
            out.append(digits.as_str());
            proof {
                assert(out@ =~= render_decimal(self.value as nat, self.exp as nat));
            }
        }
        out
    }
}

/// The digit string of a magnitude: every character is a digit, its value
/// is the magnitude, and it is never empty.
proof fn lemma_to_digits(v: nat)
    ensures
        all_digits(to_digits(v)),
        digits_value(to_digits(v)) == v,
        to_digits(v).len() >= 1,
        v < pow10(to_digits(v).len()),
{
    lemma_digit_seq_all_digits(v);
    lemma_digit_seq_value(v);
    lemma_digit_seq_len(v);
    if v == 0 {
        let s = to_digits(0);
        assert(s.drop_last() =~= Seq::<char>::empty());
        assert(s.last() == '0');
        assert(digit_val('0') == 0);
        assert(is_digit('0'));
        assert(pow10(1) == 10 * pow10(0));
    }
}

/// Round trip: rendering any decimal and parsing the text back yields
/// exactly the original magnitude and scale.
pub proof fn lemma_render_parse_round_trip(x: BigNumber)
    ensures
        parse_decimal(render_decimal(x.value as nat, x.exp as nat)) == Ok::<
            BigNumber,
            MathError,
        >(x),
{
    let v = x.value as nat;
    let e = x.exp as nat;
    let ds = to_digits(v);
    let n = ds.len();
    let s = render_decimal(v, e);
    lemma_to_digits(v);
    lemma_pow10_pos(e);
    if e == 0 {
        assert(forall|j: int| 0 <= j < s.len() ==> #[trigger] s[j] != '.');
        lemma_find_dot_scan(s, 0, s.len() as int);
        assert(valid_literal(s));
        assert(parse_decimal(s) == Ok::<BigNumber, MathError>(x));
    } else if n > e {
        let a = ds.subrange(0, n - e);
        let b = ds.subrange(n - e, n as int);
        assert(s =~= a + seq!['.'] + b);
        assert(forall|j: int| 0 <= j < n - e ==> #[trigger] s[j] == ds[j]);
        assert(s[n - e] == '.');
        lemma_find_dot_scan(s, 0, n - e);
        let d = find_dot(s, 0);
        assert(d == n - e);
        assert(s.subrange(0, d) =~= a);
        assert(s.subrange(d + 1, s.len() as int) =~= b);
        assert(ds =~= a + b);
        lemma_digits_value_split(a, b);
        assert(digits_value(a) * pow10(e) + digits_value(b) == v);
        if digits_value(a) > 0 {
            lemma_mul_left_inequality(digits_value(a) as int, 1, pow10(e) as int);
        }
        assert(digits_value(a) <= v);
        assert(digits_value(b) <= v);
        assert(valid_literal(a));
        assert(valid_literal(b));
        assert(b.len() == e);
        assert(parse_decimal(s) == Ok::<BigNumber, MathError>(x));
    } else {
        let z = zeroes((e - n) as nat);
        lemma_zeroes((e - n) as nat);
        assert(s =~= seq!['0', '.'] + z + ds);
        assert(s[0] == '0');
        assert(s[1] == '.');
        lemma_find_dot_scan(s, 0, 1);
        let d = find_dot(s, 0);
        assert(d == 1);
        let ip = s.subrange(0, 1);
        let fp = s.subrange(2, s.len() as int);
        assert(ip =~= seq!['0']);
        assert(ip.drop_last() =~= Seq::<char>::empty());
        assert(ip.last() == '0');
        assert(digit_val('0') == 0);
        assert(is_digit('0'));
        assert(digits_value(Seq::<char>::empty()) == 0);
        assert(digits_value(ip) == 0);
        assert(valid_literal(ip));
        assert(fp =~= z + ds);
        assert(fp.len() == e);
        lemma_digits_value_split(z, ds);
        assert(digits_value(fp) == 0 * pow10(n) + v);
        assert forall|i: int| 0 <= i < fp.len() implies is_digit(#[trigger] fp[i]) by {
            if i < e - n {
                assert(fp[i] == z[i]);
            } else {
                assert(fp[i] == ds[i - (e - n)]);
            }
        }
        assert(valid_literal(fp));
        assert(digits_value(ip) * pow10(fp.len()) + digits_value(fp) == 0 * pow10(e) + v);
        assert(parse_decimal(s) == Ok::<BigNumber, MathError>(x));
    }
}

} // verus!
