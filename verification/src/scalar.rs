//! The typed configuration scalar.
//!
//! A [`ConfigValue`] stores the canonical textual form of a scalar that may
//! have originated as a string, an integer, a float or a boolean. Reading it
//! back out through [`ConfigValue::to_output`] recovers the most specific
//! interpretation by a fixed trial-parse sequence: unsigned integer first,
//! then signed integer, then float, then boolean, and a plain string last.
//! The boolean trial accepts only the literal words `true` and `false`.

use vstd::prelude::*;
use vstd::string::*;

verus! {

/// `c` is a decimal digit.
pub open spec fn is_digit(c: char) -> bool {
    48 <= c as int <= 57
}

/// The value of a decimal digit.
pub open spec fn digit_val(c: char) -> int {
    c as int - 48
}

/// Every character of `s` is a decimal digit.
pub open spec fn all_digits(s: Seq<char>) -> bool {
    forall|i: int| 0 <= i < s.len() ==> is_digit(#[trigger] s[i])
}

/// The base-ten value of a digit string.
pub open spec fn digits_val(s: Seq<char>) -> int
    decreases s.len(),
{
    if s.len() == 0 {
        0
    } else {
        digits_val(s.drop_last()) * 10 + digit_val(s.last())
    }
}

pub proof fn lemma_digits_val_nonneg(s: Seq<char>)
    requires
        all_digits(s),
    ensures
        digits_val(s) >= 0,
    decreases s.len(),
{
    if s.len() > 0 {
        assert(all_digits(s.drop_last()));
        lemma_digits_val_nonneg(s.drop_last());
    }
}

/// A digit string is worth at least any of its prefixes.
pub proof fn lemma_digits_val_prefix(s: Seq<char>, m: int)
    requires
        all_digits(s),
        0 <= m <= s.len(),
    ensures
        digits_val(s.take(m)) <= digits_val(s),
    decreases s.len(),
{
    if m == s.len() {
        assert(s.take(m) =~= s);
    } else {
        let dl = s.drop_last();
        assert(all_digits(dl));
        assert(s.take(m) =~= dl.take(m));
        lemma_digits_val_prefix(dl, m);
        lemma_digits_val_nonneg(dl);
    }
}

/// The digit part of an unsigned integer literal: everything after an
/// optional leading `+`.
pub open spec fn unsigned_body(s: Seq<char>) -> Seq<char> {
    if s.len() > 0 && s[0] == '+' {
        s.skip(1)
    } else {
        s
    }
}

/// `s` parses as a 64-bit unsigned integer: an optional `+` sign, then at
/// least one digit, with a value that fits.
pub open spec fn is_u64_str(s: Seq<char>) -> bool {
    let b = unsigned_body(s);
    b.len() > 0 && all_digits(b) && digits_val(b) <= u64::MAX
}

/// The value of an unsigned integer literal.
pub open spec fn u64_str_val(s: Seq<char>) -> int {
    digits_val(unsigned_body(s))
}

/// Whether `s` starts with a minus sign.
pub open spec fn has_minus(s: Seq<char>) -> bool {
    s.len() > 0 && s[0] == '-'
}

/// The digit part of a signed integer literal: everything after an optional
/// leading `+` or `-`.
pub open spec fn signed_body(s: Seq<char>) -> Seq<char> {
    if s.len() > 0 && (s[0] == '+' || s[0] == '-') {
        s.skip(1)
    } else {
        s
    }
}

/// The signed value of the literal, before any range constraint.
pub open spec fn i64_str_val(s: Seq<char>) -> int {
    if has_minus(s) {
        -digits_val(signed_body(s))
    } else {
        digits_val(signed_body(s))
    }
}

/// `s` parses as a 64-bit signed integer: an optional sign, then at least
/// one digit, with a value in range.
pub open spec fn is_i64_str(s: Seq<char>) -> bool {
    let b = signed_body(s);
    b.len() > 0 && all_digits(b) && i64::MIN <= i64_str_val(s) <= i64::MAX
}

/// Everything after an optional leading `+` or `-`.
pub open spec fn sign_stripped(s: Seq<char>) -> Seq<char> {
    signed_body(s)
}

pub open spec fn ci(c: char, lo: char, up: char) -> bool {
    c == lo || c == up
}

/// The word `inf`, in any capitalisation.
pub open spec fn is_inf_word(s: Seq<char>) -> bool {
    s.len() == 3 && ci(s[0], 'i', 'I') && ci(s[1], 'n', 'N') && ci(s[2], 'f', 'F')
}

/// The word `infinity`, in any capitalisation.
pub open spec fn is_infinity_word(s: Seq<char>) -> bool {
    s.len() == 8 && ci(s[0], 'i', 'I') && ci(s[1], 'n', 'N') && ci(s[2], 'f', 'F') && ci(
        s[3],
        'i',
        'I',
    ) && ci(s[4], 'n', 'N') && ci(s[5], 'i', 'I') && ci(s[6], 't', 'T') && ci(s[7], 'y', 'Y')
}

/// The word `nan`, in any capitalisation.
pub open spec fn is_nan_word(s: Seq<char>) -> bool {
    s.len() == 3 && ci(s[0], 'n', 'N') && ci(s[1], 'a', 'A') && ci(s[2], 'n', 'N')
}

/// A mantissa: digits, or digits with one decimal point among them, with at
/// least one digit present.
pub open spec fn is_mantissa(s: Seq<char>) -> bool {
    (s.len() > 0 && all_digits(s)) || (s.len() >= 2 && exists|i: int|
        0 <= i < s.len() && #[trigger] s[i] == '.' && all_digits(s.take(i)) && all_digits(
            s.skip(i + 1),
        ))
}

/// An exponent: an optional sign, then at least one digit.
pub open spec fn is_exp_part(s: Seq<char>) -> bool {
    let b = sign_stripped(s);
    b.len() > 0 && all_digits(b)
}

pub open spec fn is_e(c: char) -> bool {
    c == 'e' || c == 'E'
}

/// A number: a mantissa, optionally followed by `e`/`E` and an exponent.
pub open spec fn is_float_num(s: Seq<char>) -> bool {
    is_mantissa(s) || (exists|i: int|
        0 <= i < s.len() && is_e(#[trigger] s[i]) && is_mantissa(s.take(i)) && is_exp_part(
            s.skip(i + 1),
        ))
}

/// `s` parses as a float: an optional sign, then `inf`, `infinity`, `nan`
/// (case-insensitive) or a number.
pub open spec fn is_float_str(s: Seq<char>) -> bool {
    let b = sign_stripped(s);
    is_inf_word(b) || is_infinity_word(b) || is_nan_word(b) || is_float_num(b)
}

/// The literal word `true`.
pub open spec fn is_true_lit(s: Seq<char>) -> bool {
    s.len() == 4 && s[0] == 't' && s[1] == 'r' && s[2] == 'u' && s[3] == 'e'
}

/// The literal word `false`.
pub open spec fn is_false_lit(s: Seq<char>) -> bool {
    s.len() == 5 && s[0] == 'f' && s[1] == 'a' && s[2] == 'l' && s[3] == 's' && s[4] == 'e'
}

/// The most specific reading of a scalar's canonical text, in the fixed
/// trial order: unsigned integer, signed integer, float, boolean, string.
pub ghost enum ScalarView {
    Uint { v: int },
    Int { v: int },
    Float { text: Seq<char> },
    Boolean { b: bool },
    Text { text: Seq<char> },
}

pub open spec fn scalar_of(s: Seq<char>) -> ScalarView {
    if is_u64_str(s) {
        ScalarView::Uint { v: u64_str_val(s) }
    } else if is_i64_str(s) {
        ScalarView::Int { v: i64_str_val(s) }
    } else if is_float_str(s) {
        ScalarView::Float { text: s }
    } else if is_true_lit(s) {
        ScalarView::Boolean { b: true }
    } else if is_false_lit(s) {
        ScalarView::Boolean { b: false }
    } else {
        ScalarView::Text { text: s }
    }
}

/// The output form of a scalar: what a writer should emit for it.
#[derive(Debug, PartialEq, Eq)]
pub enum ConfigScalar {
    Uint(u64),
    Int(i64),
    Float(String),
    Boolean(bool),
    Text(String),
}

impl View for ConfigScalar {
    type V = ScalarView;

    open spec fn view(&self) -> ScalarView {
        match self {
            ConfigScalar::Uint(v) => ScalarView::Uint { v: *v as int },
            ConfigScalar::Int(v) => ScalarView::Int { v: *v as int },
            ConfigScalar::Float(t) => ScalarView::Float { text: t@ },
            ConfigScalar::Boolean(v) => ScalarView::Boolean { b: *v },
            ConfigScalar::Text(t) => ScalarView::Text { text: t@ },
        }
    }
}

/// A scalar configuration value, kept as its canonical text. Construction
/// never fails, whatever the scalar looked like in the source document.
#[derive(Debug, PartialEq, Eq)]
pub struct ConfigValue {
    raw: String,
}

impl View for ConfigValue {
    type V = Seq<char>;

    closed spec fn view(&self) -> Seq<char> {
        self.raw@
    }
}

impl Clone for ConfigValue {
    fn clone(&self) -> (r: Self)
        ensures
            r == *self,
    {
        ConfigValue { raw: self.raw.clone() }
    }
}

impl ConfigValue {
    /// Stores the textual form of a scalar; never fails.
    pub fn new(s: &str) -> (r: Self)
        ensures
            r@ == s@,
    {
        ConfigValue { raw: s.to_owned() }
    }

    /// Takes ownership of an already-built string.
    pub fn from_string(s: String) -> (r: Self)
        ensures
            r@ == s@,
    {
        ConfigValue { raw: s }
    }

    /// The canonical text itself.
    pub fn as_str(&self) -> (r: &str)
        ensures
            r@ == self@,
    {
        self.raw.as_str()
    }

    /// Recovers the most specific reading of the stored text: unsigned
    /// integer, then signed integer, then float, then boolean, then string.
    pub fn to_output(&self) -> (r: ConfigScalar)
        ensures
            r@ == scalar_of(self@),
    {
        if let Some(u) = parse_u64(self.raw.as_str()) {
            return ConfigScalar::Uint(u);
        }
        if let Some(v) = parse_i64(self.raw.as_str()) {
            return ConfigScalar::Int(v);
        }
        if is_float_lit(self.raw.as_str()) {
            return ConfigScalar::Float(self.raw.clone());
        }
        if is_true_word(self.raw.as_str()) {
            return ConfigScalar::Boolean(true);
        }
        if is_false_word(self.raw.as_str()) {
            return ConfigScalar::Boolean(false);
        }
        ConfigScalar::Text(self.raw.clone())
    }
}

/// Reads the digits of `s` from `start` on as a base-ten `u64`.
fn parse_digits(s: &str, start: usize) -> (r: Option<u64>)
    requires
        start <= s@.len(),
    ensures
        match r {
            Some(v) => {
                let seg = s@.skip(start as int);
                seg.len() > 0 && all_digits(seg) && digits_val(seg) <= u64::MAX && v == digits_val(
                    seg,
                )
            },
            None => {
                let seg = s@.skip(start as int);
                !(seg.len() > 0 && all_digits(seg) && digits_val(seg) <= u64::MAX)
            },
        },
{
    let ghost seg = s@.skip(start as int);
    let n = s.unicode_len();
    if start == n {
        return None;
    }
    let mut i = start;
    let mut acc: u64 = 0;
    while i < n
        invariant
            start <= i <= n,
            n == s@.len(),
            seg == s@.skip(start as int),
            all_digits(seg.take(i - start)),
            acc == digits_val(seg.take(i - start)),
        decreases n - i,
    {
        let c = s.get_char(i);
        let u = c as u32;
        proof {
            assert(seg[i - start] == s@[i as int]);
        }
        if !(48 <= u && u <= 57) {
            proof {
                assert(!is_digit(seg[i - start]));
            }
            return None;
        }
        let d = (u - 48) as u64;
        if acc > (u64::MAX - d) / 10 {
            proof {
                assert(seg.take(i - start + 1).drop_last() =~= seg.take(i - start));
                assert(seg.take(i - start + 1).last() == seg[i - start]);
                assert(digits_val(seg.take(i - start + 1)) == acc * 10 + d);
                assert(acc * 10 + d > u64::MAX) by {
                    assert(acc >= (u64::MAX - d) / 10 + 1);
                    assert(((u64::MAX - d) / 10 + 1) * 10 == ((u64::MAX - d) / 10) * 10 + 10);
                    assert(((u64::MAX - d) / 10) * 10 + 10 > u64::MAX - d) by (nonlinear_arith);
                    assert(acc * 10 >= ((u64::MAX - d) / 10 + 1) * 10) by (nonlinear_arith)
                        requires
                            acc >= (u64::MAX - d) / 10 + 1,
                    ;
                }
                if all_digits(seg) {
                    assert(all_digits(seg.take(i - start + 1)));
                    lemma_digits_val_prefix(seg, i - start + 1);
                    assert(digits_val(seg) > u64::MAX);
                }
            }
            return None;
        }
        proof {
            assert(seg.take(i - start + 1).drop_last() =~= seg.take(i - start));
            assert(seg.take(i - start + 1).last() == seg[i - start]);
            assert(acc * 10 + d <= u64::MAX) by {
                assert(acc <= (u64::MAX - d) / 10);
                assert(acc * 10 <= ((u64::MAX - d) / 10) * 10) by (nonlinear_arith)
                    requires
                        acc <= (u64::MAX - d) / 10,
                ;
                assert(((u64::MAX - d) / 10) * 10 <= u64::MAX - d) by (nonlinear_arith);
            }
        }
        acc = acc * 10 + d;
        i = i + 1;
    }
    proof {
        assert(seg.take(i - start) =~= seg);
    }
    Some(acc)
}

/// Parses `s` exactly as `u64::from_str` would: an optional `+` sign and at
/// least one digit, failing on anything else or on overflow.
pub fn parse_u64(s: &str) -> (r: Option<u64>)
    ensures
        r is Some <==> is_u64_str(s@),
        r is Some ==> r->0 == u64_str_val(s@),
{
    let n = s.unicode_len();
    let start: usize = if n > 0 && s.get_char(0) == '+' {
        1
    } else {
        0
    };
    proof {
        assert(s@.skip(start as int) =~= unsigned_body(s@));
    }
    parse_digits(s, start)
}

/// Parses `s` exactly as `i64::from_str` would: an optional `+` or `-` sign
/// and at least one digit, failing on anything else or out of range.
pub fn parse_i64(s: &str) -> (r: Option<i64>)
    ensures
        r is Some <==> is_i64_str(s@),
        r is Some ==> r->0 == i64_str_val(s@),
{
    let n = s.unicode_len();
    let mut neg = false;
    let start: usize = if n > 0 && s.get_char(0) == '+' {
        1
    } else if n > 0 && s.get_char(0) == '-' {
        neg = true;
        1
    } else {
        0
    };
    proof {
        assert(s@.skip(start as int) =~= signed_body(s@));
        assert(neg == has_minus(s@));
    }
    let mag = parse_digits(s, start);
    match mag {
        None => {
            proof {
                if s@.skip(start as int).len() > 0 && all_digits(s@.skip(start as int)) {
                    lemma_digits_val_nonneg(s@.skip(start as int));
                }
            }
            None
        },
        Some(m) => {
            if neg {
                if m > 9223372036854775808u64 {
                    None
                } else if m == 9223372036854775808u64 {
                    Some(i64::MIN)
                } else {
                    Some(-(m as i64))
                }
            } else {
                if m > 9223372036854775807u64 {
                    None
                } else {
                    Some(m as i64)
                }
            }
        },
    }
}

/// Every character of a mantissa is a digit or the decimal point.
proof fn lemma_mantissa_chars(s: Seq<char>, j: int)
    requires
        is_mantissa(s),
        0 <= j < s.len(),
    ensures
        is_digit(s[j]) || s[j] == '.',
{
    if !(s.len() > 0 && all_digits(s)) {
        let i = choose|i: int|
            0 <= i < s.len() && #[trigger] s[i] == '.' && all_digits(s.take(i)) && all_digits(
                s.skip(i + 1),
            );
        if j < i {
            assert(s.take(i)[j] == s[j]);
            assert(is_digit(s.take(i)[j]));
        } else if j > i {
            assert(s.skip(i + 1)[j - i - 1] == s[j]);
            assert(is_digit(s.skip(i + 1)[j - i - 1]));
        }
    }
}

/// Every character of an exponent is a digit, except a leading sign.
proof fn lemma_exp_chars(s: Seq<char>, j: int)
    requires
        is_exp_part(s),
        0 <= j < s.len(),
    ensures
        is_digit(s[j]) || (j == 0 && (s[0] == '+' || s[0] == '-')),
{
    let b = sign_stripped(s);
    if s.len() > 0 && (s[0] == '+' || s[0] == '-') {
        if j > 0 {
            assert(b[j - 1] == s[j]);
            assert(is_digit(b[j - 1]));
        }
    } else {
        assert(b[j] == s[j]);
        assert(is_digit(b[j]));
    }
}

/// With `p` the first `e`/`E` of `s`, a number splits exactly there.
proof fn lemma_float_num_split(s: Seq<char>, p: int)
    requires
        0 <= p < s.len(),
        is_e(s[p]),
        forall|j: int| 0 <= j < p ==> !is_e(#[trigger] s[j]),
    ensures
        is_float_num(s) <==> (is_mantissa(s.take(p)) && is_exp_part(s.skip(p + 1))),
{
    if is_mantissa(s.take(p)) && is_exp_part(s.skip(p + 1)) {
        assert(is_float_num(s));
    }
    if is_float_num(s) {
        if is_mantissa(s) {
            lemma_mantissa_chars(s, p);
            assert(false);
        }
        let i = choose|i: int|
            0 <= i < s.len() && is_e(#[trigger] s[i]) && is_mantissa(s.take(i)) && is_exp_part(
                s.skip(i + 1),
            );
        if i < p {
            assert(s.skip(i + 1)[p - i - 1] == s[p]);
            lemma_exp_chars(s.skip(i + 1), p - i - 1);
            assert(false);
        } else if i > p {
            assert(s.take(i)[p] == s[p]);
            lemma_mantissa_chars(s.take(i), p);
            assert(false);
        }
    }
}

/// Checks the character range `[from, to)` of `s` for mantissa shape.
fn is_mantissa_range(s: &str, from: usize, to: usize) -> (r: bool)
    requires
        from <= to <= s@.len(),
    ensures
        r == is_mantissa(s@.subrange(from as int, to as int)),
{
    let ghost seg = s@.subrange(from as int, to as int);
    let mut i = from;
    let mut dot: Option<usize> = None;
    while i < to
        invariant
            from <= i <= to <= s@.len(),
            seg == s@.subrange(from as int, to as int),
            match dot {
                None => forall|j: int| 0 <= j < i - from ==> is_digit(#[trigger] seg[j]),
                Some(p) => from <= p < i && seg[p - from] == '.' && forall|j: int|
                    0 <= j < i - from && j != p - from ==> is_digit(#[trigger] seg[j]),
            },
        decreases to - i,
    {
        let c = s.get_char(i);
        proof {
            assert(seg[i - from] == s@[i as int]);
        }
        if c == '.' {
            if dot.is_some() {
                proof {
                    let ghost p = dot->0;
                    assert forall|k: int|
                        0 <= k < seg.len() && #[trigger] seg[k] == '.' implies !(all_digits(
                        seg.take(k),
                    ) && all_digits(seg.skip(k + 1))) by {
                        if k != p - from {
                            if p - from < k {
                                assert(seg.take(k)[p - from] == seg[p - from]);
                            } else {
                                assert(seg.skip(k + 1)[p - from - k - 1] == seg[p - from]);
                            }
                        } else {
                            if i - from < k {
                                assert(seg.take(k)[i - from] == seg[i - from]);
                            } else {
                                assert(seg.skip(k + 1)[i - from - k - 1] == seg[i - from]);
                            }
                        }
                    }
                    assert(!all_digits(seg)) by {
                        assert(seg[p - from] == '.');
                    }
                }
                return false;
            }
            dot = Some(i);
        } else {
            let u = c as u32;
            if !(48 <= u && u <= 57) {
                proof {
                    let ghost q = i - from;
                    assert(!is_digit(seg[q]) && seg[q] != '.');
                    assert(!all_digits(seg));
                    assert forall|k: int|
                        0 <= k < seg.len() && #[trigger] seg[k] == '.' implies !(all_digits(
                        seg.take(k),
                    ) && all_digits(seg.skip(k + 1))) by {
                        if q < k {
                            assert(seg.take(k)[q] == seg[q]);
                        } else {
                            assert(k != q);
                            assert(seg.skip(k + 1)[q - k - 1] == seg[q]);
                        }
                    }
                }
                return false;
            }
        }
        i = i + 1;
    }
    match dot {
        None => {
            proof {
                if to > from {
                    assert(all_digits(seg));
                }
            }
            to > from
        },
        Some(p) => {
            proof {
                if to - from >= 2 {
                    assert(seg[p - from] == '.');
                    assert(all_digits(seg.take(p - from))) by {
                        assert(forall|j: int|
                            0 <= j < p - from ==> is_digit(#[trigger] seg.take(p - from)[j]));
                    }
                    assert(all_digits(seg.skip(p - from + 1))) by {
                        assert(forall|j: int|
                            0 <= j < seg.len() - (p - from) - 1 ==> is_digit(
                                #[trigger] seg.skip(p - from + 1)[j],
                            ));
                    }
                    assert(is_mantissa(seg));
                } else {
                    // the range is just the dot itself
                    assert(seg.len() == 1 && seg[0] == '.');
                    assert(!all_digits(seg));
                    assert forall|k: int|
                        0 <= k < seg.len() && #[trigger] seg[k] == '.' implies !(seg.len() >= 2) by {
                    }
                }
            }
            to - from >= 2
        },
    }
}

/// Checks the character range `[from, to)` of `s` for exponent shape.
fn is_exp_range(s: &str, from: usize, to: usize) -> (r: bool)
    requires
        from <= to <= s@.len(),
    ensures
        r == is_exp_part(s@.subrange(from as int, to as int)),
{
    let ghost seg = s@.subrange(from as int, to as int);
    if from == to {
        return false;
    }
    let c0 = s.get_char(from);
    proof {
        assert(seg[0] == s@[from as int]);
    }
    let body_start: usize = if c0 == '+' || c0 == '-' {
        from + 1
    } else {
        from
    };
    proof {
        assert(sign_stripped(seg) =~= s@.subrange(body_start as int, to as int));
    }
    let mut i = body_start;
    if i == to {
        return false;
    }
    let ghost body = s@.subrange(body_start as int, to as int);
    while i < to
        invariant
            from <= body_start <= i <= to <= s@.len(),
            seg == s@.subrange(from as int, to as int),
            body == s@.subrange(body_start as int, to as int),
            sign_stripped(seg) == body,
            body.len() > 0,
            forall|j: int| 0 <= j < i - body_start ==> is_digit(#[trigger] body[j]),
        decreases to - i,
    {
        let c = s.get_char(i);
        proof {
            assert(body[i - body_start] == s@[i as int]);
        }
        let u = c as u32;
        if !(48 <= u && u <= 57) {
            proof {
                assert(!is_digit(body[i - body_start]));
                assert(!all_digits(body));
                assert(sign_stripped(seg) =~= body);
            }
            return false;
        }
        i = i + 1;
    }
    proof {
        assert(all_digits(body));
        assert(sign_stripped(seg) =~= body);
    }
    true
}

/// Whether the character at `from` is one of the two given cases of a
/// letter, as the float grammar's special words allow.
fn word_at(s: &str, from: usize, lo: char, up: char) -> (r: bool)
    requires
        from < s@.len(),
    ensures
        r == ci(s@[from as int], lo, up),
{
    let c = s.get_char(from);
    c == lo || c == up
}

/// Decides whether `s` parses as a float, exactly as `f64::from_str` accepts
/// it: an optional sign, then `inf`, `infinity`, `nan` (case-insensitive) or
/// digits with an optional decimal point and exponent.
pub fn is_float_lit(s: &str) -> (r: bool)
    ensures
        r == is_float_str(s@),
{
    let n = s.unicode_len();
    let start: usize = if n > 0 {
        let c0 = s.get_char(0);
        if c0 == '+' || c0 == '-' {
            1
        } else {
            0
        }
    } else {
        0
    };
    let ghost b = sign_stripped(s@);
    proof {
        assert(b =~= s@.subrange(start as int, n as int));
    }
    // the special words
    if n - start == 3 {
        if word_at(s, start, 'i', 'I') && word_at(s, start + 1, 'n', 'N') && word_at(
            s,
            start + 2,
            'f',
            'F',
        ) {
            proof {
                assert(b[0] == s@[start as int]);
                assert(b[1] == s@[start as int + 1]);
                assert(b[2] == s@[start as int + 2]);
                assert(is_inf_word(b));
            }
            return true;
        }
        if word_at(s, start, 'n', 'N') && word_at(s, start + 1, 'a', 'A') && word_at(
            s,
            start + 2,
            'n',
            'N',
        ) {
            proof {
                assert(b[0] == s@[start as int]);
                assert(b[1] == s@[start as int + 1]);
                assert(b[2] == s@[start as int + 2]);
                assert(is_nan_word(b));
            }
            return true;
        }
    }
    if n - start == 8 {
        if word_at(s, start, 'i', 'I') && word_at(s, start + 1, 'n', 'N') && word_at(
            s,
            start + 2,
            'f',
            'F',
        ) && word_at(s, start + 3, 'i', 'I') && word_at(s, start + 4, 'n', 'N') && word_at(
            s,
            start + 5,
            'i',
            'I',
        ) && word_at(s, start + 6, 't', 'T') && word_at(s, start + 7, 'y', 'Y') {
            proof {
                assert forall|j: int| 0 <= j < 8 implies b[j] == s@[start + j] by {}
                assert(is_infinity_word(b));
            }
            return true;
        }
    }
    // a number: find the first exponent marker
    let mut p = start;
    let mut e_at: Option<usize> = None;
    while p < n
        invariant
            start <= p <= n,
            n == s@.len(),
            b == s@.subrange(start as int, n as int),
            match e_at {
                None => forall|j: int| 0 <= j < p - start ==> !is_e(#[trigger] b[j]),
                Some(q) => start <= q < p && is_e(b[q - start]) && forall|j: int|
                    0 <= j < q - start ==> !is_e(#[trigger] b[j]),
            },
        decreases n - p,
    {
        if e_at.is_none() {
            let c = s.get_char(p);
            proof {
                assert(b[p - start] == s@[p as int]);
            }
            if c == 'e' || c == 'E' {
                e_at = Some(p);
            }
        }
        p = p + 1;
    }
    let num = match e_at {
        None => {
            let r = is_mantissa_range(s, start, n);
            proof {
                assert(s@.subrange(start as int, n as int) == b);
                if !r {
                    assert forall|i: int|
                        0 <= i < b.len() && is_e(#[trigger] b[i]) implies !(is_mantissa(b.take(i))
                        && is_exp_part(b.skip(i + 1))) by {}
                    assert(!is_float_num(b));
                }
            }
            r
        },
        Some(q) => {
            let m = is_mantissa_range(s, start, q);
            let x = is_exp_range(s, q + 1, n);
            proof {
                assert(b.take(q - start) =~= s@.subrange(start as int, q as int));
                assert(b.skip(q - start + 1) =~= s@.subrange(q as int + 1, n as int));
                lemma_float_num_split(b, q - start);
            }
            m && x
        },
    };
    proof {
        if num {
            assert(is_float_str(s@));
        } else {
            if n - start == 3 {
                assert(!is_infinity_word(b));
            } else if n - start == 8 {
                assert(!is_inf_word(b) && !is_nan_word(b));
            } else {
                assert(!is_inf_word(b) && !is_nan_word(b) && !is_infinity_word(b));
            }
        }
    }
    num
}

/// Recognises exactly the word `true`, as the boolean trial parse does.
pub fn is_true_word(s: &str) -> (r: bool)
    ensures
        r == is_true_lit(s@),
{
    let n = s.unicode_len();
    if n != 4 {
        return false;
    }
    s.get_char(0) == 't' && s.get_char(1) == 'r' && s.get_char(2) == 'u' && s.get_char(3) == 'e'
}

/// Recognises exactly the word `false`, as the boolean trial parse does.
pub fn is_false_word(s: &str) -> (r: bool)
    ensures
        r == is_false_lit(s@),
{
    let n = s.unicode_len();
    if n != 5 {
        return false;
    }
    s.get_char(0) == 'f' && s.get_char(1) == 'a' && s.get_char(2) == 'l' && s.get_char(3) == 's'
        && s.get_char(4) == 'e'
}

} // verus!
