//! The value model: argument types, typed argument values, and the coercion
//! of a raw token into a typed value.

use crate::error::{Error, ErrorV, IntErrorKind, Span};
use core::str::FromStr;
use std::primitive::f64 as Double;
use vstd::prelude::*;

verus! {

/// The type a command value or parameter value is coerced to.
#[derive(Clone, Copy, Debug, PartialEq, Eq, Structural)]
pub enum ArgType {
    Bool,
    Int,
    Float,
    String,
}

impl Default for ArgType {
    fn default() -> (r: Self)
        ensures
            r == ArgType::Bool,
    {
        ArgType::Bool
    }
}

/// A coerced argument value.
///
/// `Float` carries the IEEE 754 bit pattern of the parsed 64-bit float, so
/// that the value can be stored and handed through without any floating-point
/// operation; a consumer rebuilds the float with `f64::from_bits`.
#[derive(Clone, Debug)]
pub enum ArgValue {
    Bool(bool),
    Int(i64),
    Float(u64),
    String(String),
}

/// The mathematical value of an [`ArgValue`]: text as a sequence of
/// characters.
pub enum ArgValueV {
    Bool(bool),
    Int(i64),
    Float(u64),
    String(Seq<char>),
}

impl View for ArgValue {
    type V = ArgValueV;

    open spec fn view(&self) -> ArgValueV {
        match self {
            ArgValue::Bool(b) => ArgValueV::Bool(*b),
            ArgValue::Int(i) => ArgValueV::Int(*i),
            ArgValue::Float(bits) => ArgValueV::Float(*bits),
            ArgValue::String(s) => ArgValueV::String(s@),
        }
    }
}

/// Whether `c` is a decimal digit.
pub open spec fn is_digit(c: char) -> bool {
    48 <= c as int && c as int <= 57
}

/// The numeric value of a decimal digit.
pub open spec fn digit_val(c: char) -> int {
    c as int - 48
}

/// Whether every character of `s` is a decimal digit.
pub open spec fn all_digits(s: Seq<char>) -> bool {
    forall|i: int| 0 <= i < s.len() ==> is_digit(s[i])
}

/// The value of a string of decimal digits, most significant first.
pub open spec fn dec_val(s: Seq<char>) -> int
    decreases s.len(),
{
    if s.len() == 0 {
        0
    } else {
        dec_val(s.drop_last()) * 10 + digit_val(s.last())
    }
}

/// Ten to the `n`th.
pub open spec fn pow10(n: nat) -> int
    decreases n,
{
    if n == 0 {
        1
    } else {
        10 * pow10((n - 1) as nat)
    }
}

proof fn lemma_pow10_positive(n: nat)
    ensures
        pow10(n) >= 1,
    decreases n,
{
    if n > 0 {
        lemma_pow10_positive((n - 1) as nat);
    }
}

proof fn lemma_pow10_mono(a: nat, b: nat)
    requires
        a <= b,
    ensures
        pow10(a) <= pow10(b),
    decreases b,
{
    if a < b {
        lemma_pow10_mono(a, (b - 1) as nat);
        lemma_pow10_positive((b - 1) as nat);
    }
}

proof fn lemma_dec_val_nonneg(s: Seq<char>)
    requires
        all_digits(s),
    ensures
        dec_val(s) >= 0,
    decreases s.len(),
{
    if s.len() > 0 {
        assert(all_digits(s.drop_last()));
        lemma_dec_val_nonneg(s.drop_last());
    }
}

proof fn lemma_dec_val_bound(s: Seq<char>)
    requires
        all_digits(s),
    ensures
        0 <= dec_val(s) < pow10(s.len()),
    decreases s.len(),
{
    if s.len() == 0 {
    } else {
        assert(all_digits(s.drop_last()));
        lemma_dec_val_bound(s.drop_last());
    }
}

proof fn lemma_dec_val_lower(s: Seq<char>)
    requires
        all_digits(s),
        s.len() > 0,
        s[0] != '0',
    ensures
        dec_val(s) >= pow10((s.len() - 1) as nat),
    decreases s.len(),
{
    if s.len() == 1 {
        assert(digit_val(s[0]) >= 1);
    } else {
        assert(all_digits(s.drop_last()));
        assert(s.drop_last()[0] == s[0]);
        lemma_dec_val_lower(s.drop_last());
        assert(dec_val(s.drop_last()) >= pow10((s.len() - 2) as nat));
        assert(pow10((s.len() - 1) as nat) == 10 * pow10((s.len() - 2) as nat));
        assert(dec_val(s) == dec_val(s.drop_last()) * 10 + digit_val(s.last()));
        assert(dec_val(s.drop_last()) * 10 >= pow10((s.len() - 2) as nat) * 10);
        assert(digit_val(s.last()) >= 0);
    }
}

/// Leading zeroes do not change the value of a digit string.
proof fn lemma_dec_val_skip_zeros(s: Seq<char>, k: int)
    requires
        0 <= k <= s.len(),
        forall|i: int| 0 <= i < k ==> s[i] == '0',
    ensures
        dec_val(s) == dec_val(s.subrange(k, s.len() as int)),
    decreases s.len(),
{
    if k == s.len() {
        lemma_dec_val_all_zeros(s);
        assert(s.subrange(k, s.len() as int) =~= Seq::<char>::empty());
    } else {
        let t = s.subrange(k, s.len() as int);
        lemma_dec_val_skip_zeros(s.drop_last(), k);
        assert(s.drop_last().subrange(k, s.len() - 1) =~= t.drop_last());
        assert(t.last() == s.last());
    }
}

proof fn lemma_dec_val_all_zeros(s: Seq<char>)
    requires
        forall|i: int| 0 <= i < s.len() ==> s[i] == '0',
    ensures
        dec_val(s) == 0,
    decreases s.len(),
{
    if s.len() > 0 {
        lemma_dec_val_all_zeros(s.drop_last());
    }
}

/// What `i64::from_str` yields on this text: an optional sign, then at least
/// one decimal digit and nothing else, valued within the 64-bit signed range.
pub open spec fn spec_parse_i64(s: Seq<char>) -> Result<i64, IntErrorKind> {
    if s.len() == 0 {
        Err(IntErrorKind::Empty)
    } else {
        let neg = s[0] == '-';
        let ds = if s[0] == '-' || s[0] == '+' {
            s.drop_first()
        } else {
            s
        };
        if ds.len() == 0 || !all_digits(ds) {
            Err(IntErrorKind::InvalidDigit)
        } else {
            let v = if neg {
                -dec_val(ds)
            } else {
                dec_val(ds)
            };
            if v < -0x8000_0000_0000_0000 {
                Err(IntErrorKind::NegOverflow)
            } else if v > 0x7FFF_FFFF_FFFF_FFFF {
                Err(IntErrorKind::PosOverflow)
            } else {
                Ok(v as i64)
            }
        }
    }
}

/// Parses a 64-bit signed decimal integer: an optional sign, then at least
/// one decimal digit and nothing else; values outside the 64-bit signed
/// range are rejected.
#[verifier::loop_isolation(false)]
#[verifier::rlimit(50)]
pub fn parse_i64(s: &str) -> (r: Result<i64, IntErrorKind>)
    ensures
        r == spec_parse_i64(s@),
{
    let n = s.unicode_len();
    if n == 0 {
        return Err(IntErrorKind::Empty);
    }
    let c0 = s.get_char(0);
    let neg = c0 == '-';
    let start: usize = if c0 == '-' || c0 == '+' {
        1
    } else {
        0
    };
    if start == n {
        return Err(IntErrorKind::InvalidDigit);
    }
    let ghost ds = if s@[0] == '-' || s@[0] == '+' {
        s@.drop_first()
    } else {
        s@
    };
    proof {
        assert(ds =~= s@.subrange(start as int, n as int));
    }
    // Every character after the sign must be a digit.
    let mut i: usize = start;
    while i < n
        invariant
            start <= i <= n,
            n == s@.len(),
            start < n,
            forall|k: int| start <= k < i ==> is_digit(s@[k]),
        decreases n - i,
    {
        let c = s.get_char(i);
        if !(('0' <= c) && (c <= '9')) {
            proof {
                assert(ds[i - start] == s@[i as int]);
                assert(!is_digit(ds[i - start]));
            }
            return Err(IntErrorKind::InvalidDigit);
        }
        i = i + 1;
    }
    proof {
        assert(all_digits(ds));
    }
    // Skip leading zeroes; at most nineteen significant digits can fit.
    let mut j: usize = start;
    while j < n && s.get_char(j) == '0'
        invariant
            start <= j <= n,
            n == s@.len(),
            forall|k: int| start <= k < j ==> s@[k] == '0',
        decreases n - j,
    {
        j = j + 1;
    }
    let ghost sig = s@.subrange(j as int, n as int);
    proof {
        assert(forall|k: int| 0 <= k < j - start ==> ds[k] == '0');
        lemma_dec_val_skip_zeros(ds, j - start);
        assert(ds.subrange(j - start, ds.len() as int) =~= sig);
        assert(all_digits(sig));
    }
    if n - j > 19 {
        proof {
            lemma_dec_val_lower(sig);
            lemma_pow10_mono(19, (sig.len() - 1) as nat);
            reveal_with_fuel(pow10, 21);
            assert(pow10(19) == 10_000_000_000_000_000_000);
        }
        return Err(
            if neg {
                IntErrorKind::NegOverflow
            } else {
                IntErrorKind::PosOverflow
            },
        );
    }
    let mut acc: u64 = 0;
    let mut k: usize = j;
    proof {
        reveal_with_fuel(pow10, 21);
        assert(pow10(19) == 10_000_000_000_000_000_000);
    }
    while k < n
        invariant
            j <= k <= n,
            n == s@.len(),
            n - j <= 19,
            sig == s@.subrange(j as int, n as int),
            all_digits(sig),
            acc == dec_val(s@.subrange(j as int, k as int)),
            forall|q: int| j <= q < n ==> is_digit(s@[q]),
            acc < pow10((k - j) as nat),
            pow10(19) == 10_000_000_000_000_000_000,
        decreases n - k,
    {
        let c = s.get_char(k);
        let d: u64 = (c as u32 as u64) - 48;
        proof {
            let pre = s@.subrange(j as int, k as int);
            let post = s@.subrange(j as int, k + 1);
            assert(post.drop_last() =~= pre);
            assert(post.last() == s@[k as int]);
            assert(all_digits(pre));
            lemma_pow10_mono((k - j) as nat, 18);
            lemma_pow10_mono((k + 1 - j) as nat, 19);
        }
        acc = acc * 10 + d;
        k = k + 1;
        proof {
            lemma_dec_val_bound(s@.subrange(j as int, k as int));
        }
    }
    proof {
        assert(acc == dec_val(sig));
        lemma_dec_val_bound(sig);
        lemma_pow10_mono(sig.len() as nat, 19);
    }
    if neg {
        if acc > 0x8000_0000_0000_0000 {
            Err(IntErrorKind::NegOverflow)
        } else if acc == 0x8000_0000_0000_0000 {
            Ok(i64::MIN)
        } else {
            Ok(-(acc as i64))
        }
    } else {
        if acc > 0x7FFF_FFFF_FFFF_FFFF {
            Err(IntErrorKind::PosOverflow)
        } else {
            Ok(acc as i64)
        }
    }
}

/// What `f64::from_str` yields on this text: the bit pattern of the parsed
/// float, or `None` when the text is not a float literal. The result depends
/// on the text alone.
pub uninterp spec fn float_bits_of(s: Seq<char>) -> Option<u64>;

/// Relies on `f64::from_str` (std): parses the standard decimal/scientific
/// float grammar, saturating out-of-range magnitudes to the infinities; the
/// result is a function of the text alone. The bit pattern of the parsed
/// value is handed back.
#[verifier::external_body]
fn parse_float_bits(s: &str) -> (r: Option<u64>)
    ensures
        r == float_bits_of(s@),
{
    match <Double as FromStr>::from_str(s) {
        Ok(v) => Some(v.to_bits()),
        Err(_) => None,
    }
}

/// The texts accepted as `true`.
pub open spec fn is_true_text(s: Seq<char>) -> bool {
    s == "true"@ || s == "yes"@ || s == "1"@ || s == "on"@
}

/// The texts accepted as `false`.
pub open spec fn is_false_text(s: Seq<char>) -> bool {
    s == "false"@ || s == "no"@ || s == "0"@ || s == "off"@
}

/// What boolean this text stands for, if any: the accepted literals are
/// `true`, `yes`, `1`, `on` and `false`, `no`, `0`, `off`, case-sensitively.
pub open spec fn spec_parse_bool(s: Seq<char>) -> Option<bool> {
    if is_true_text(s) {
        Some(true)
    } else if is_false_text(s) {
        Some(false)
    } else {
        None
    }
}

/// Reads a boolean from one of the eight accepted literals.
pub fn parse_bool(s: &str) -> (r: Option<bool>)
    ensures
        r == spec_parse_bool(s@),
{
    if crate::str_eq(s, "true") || crate::str_eq(s, "yes") || crate::str_eq(s, "1")
        || crate::str_eq(s, "on") {
        Some(true)
    } else if crate::str_eq(s, "false") || crate::str_eq(s, "no") || crate::str_eq(s, "0")
        || crate::str_eq(s, "off") {
        Some(false)
    } else {
        None
    }
}

/// The outcome of coercing token text `s` to type `t`, with `sp` the token's
/// span for error reporting.
///
/// A token with a leading `-` is rejected where a boolean or a string is
/// expected, since it reads as a flag; for the numeric types it is kept, so
/// that negative numbers parse.
pub open spec fn spec_coerce(t: ArgType, s: Seq<char>, sp: Span) -> Result<ArgValueV, ErrorV> {
    if s.len() > 0 && s[0] == '-' && (t == ArgType::Bool || t == ArgType::String) {
        Err(ErrorV::NotValue(sp))
    } else {
        match t {
            ArgType::Bool => match spec_parse_bool(s) {
                Some(b) => Ok(ArgValueV::Bool(b)),
                None => Err(ErrorV::ParseBool(sp)),
            },
            ArgType::Int => match spec_parse_i64(s) {
                Ok(v) => Ok(ArgValueV::Int(v)),
                Err(k) => Err(ErrorV::ParseInt(sp, k)),
            },
            ArgType::Float => match float_bits_of(s) {
                Some(bits) => Ok(ArgValueV::Float(bits)),
                None => Err(ErrorV::ParseFloat(sp)),
            },
            ArgType::String => Ok(ArgValueV::String(s)),
        }
    }
}

/// The mathematical value of a coercion outcome.
pub open spec fn coercion_view(r: Result<ArgValue, Error>) -> Result<ArgValueV, ErrorV> {
    match r {
        Ok(v) => Ok(v@),
        Err(e) => Err(e@),
    }
}

/// Coerces the raw token `arg` into a typed value according to `arg_type`;
/// `span` locates the token in the line for error reporting.
pub fn parse_arg(arg_type: ArgType, arg: &str, span: Span) -> (r: Result<ArgValue, Error>)
    ensures
        coercion_view(r) == spec_coerce(arg_type, arg@, span),
{
    if arg.unicode_len() > 0 && arg.get_char(0) == '-'
        && (arg_type == ArgType::Bool || arg_type == ArgType::String) {
        return Err(Error::NotValue(span));
    }
    match arg_type {
        ArgType::Bool => match parse_bool(arg) {
            Some(b) => Ok(ArgValue::Bool(b)),
            None => Err(Error::ParseBool(span)),
        },
        ArgType::Int => match parse_i64(arg) {
            Ok(v) => Ok(ArgValue::Int(v)),
            Err(k) => Err(Error::ParseInt(span, k)),
        },
        ArgType::Float => match parse_float_bits(arg) {
            Some(bits) => Ok(ArgValue::Float(bits)),
            None => Err(Error::ParseFloat(span)),
        },
        ArgType::String => Ok(ArgValue::String(arg.to_owned())),
    }
}

/// Boolean coercion is total over the eight accepted literals and fails on
/// every other text: each of `true`, `yes`, `1`, `on` coerces to `true`,
/// each of `false`, `no`, `0`, `off` coerces to `false`, and any other
/// token is rejected.
pub proof fn lemma_bool_coercion_totality(s: Seq<char>, sp: Span)
    ensures
        is_true_text(s) ==> spec_coerce(ArgType::Bool, s, sp) == Ok::<ArgValueV, ErrorV>(
            ArgValueV::Bool(true),
        ),
        is_false_text(s) ==> spec_coerce(ArgType::Bool, s, sp) == Ok::<ArgValueV, ErrorV>(
            ArgValueV::Bool(false),
        ),
        !is_true_text(s) && !is_false_text(s) ==> spec_coerce(ArgType::Bool, s, sp) is Err,
{
    reveal_strlit("true");
    reveal_strlit("yes");
    reveal_strlit("1");
    reveal_strlit("on");
    reveal_strlit("false");
    reveal_strlit("no");
    reveal_strlit("0");
    reveal_strlit("off");
}

/// The canonical decimal digit string of a non-negative integer, most
/// significant digit first and without leading zeroes.
pub open spec fn dec_digits(n: int) -> Seq<char>
    decreases n,
{
    if n < 10 {
        seq![((48 + if n >= 0 { n } else { 0 }) as char)]
    } else {
        dec_digits(n / 10).push(((48 + n % 10) as char))
    }
}

/// The canonical decimal text of an integer: a `-` for a negative one,
/// then its digits.
pub open spec fn int_text(n: int) -> Seq<char> {
    if n < 0 {
        seq!['-'] + dec_digits(-n)
    } else {
        dec_digits(n)
    }
}

proof fn lemma_dec_digits_val(n: int)
    requires
        n >= 0,
    ensures
        all_digits(dec_digits(n)),
        dec_val(dec_digits(n)) == n,
        dec_digits(n).len() >= 1,
    decreases n,
{
    if n < 10 {
        let s = dec_digits(n);
        assert(s.len() == 1);
        assert(s[0] as int == 48 + n);
        assert(s.drop_last() =~= Seq::<char>::empty());
        assert(dec_val(s) == dec_val(s.drop_last()) * 10 + digit_val(s.last()));
    } else {
        vstd::arithmetic::div_mod::lemma_fundamental_div_mod(n, 10);
        assert(0 <= n % 10 < 10) by {
            vstd::arithmetic::div_mod::lemma_mod_bound(n, 10);
        }
        assert(n / 10 >= 0) by {
            vstd::arithmetic::div_mod::lemma_div_pos_is_pos(n, 10);
        }
        lemma_dec_digits_val(n / 10);
        let s = dec_digits(n);
        let t = dec_digits(n / 10);
        assert(s == t.push(((48 + n % 10) as char)));
        assert(s.drop_last() =~= t);
        assert(s.last() as int == 48 + n % 10);
        assert(dec_val(s) == dec_val(t) * 10 + n % 10);
    }
}

/// Round trip for integers: for every 64-bit signed integer, coercing its
/// decimal text yields exactly that integer back.
pub proof fn lemma_int_round_trip(n: i64)
    ensures
        spec_parse_i64(int_text(n as int)) == Ok::<i64, IntErrorKind>(n),
{
    let s = int_text(n as int);
    if n >= 0 {
        lemma_dec_digits_val(n as int);
        assert(s[0] as int >= 48 && s[0] as int <= 57);
        assert(s[0] != '-' && s[0] != '+');
    } else {
        lemma_dec_digits_val(-(n as int));
        assert(s[0] == '-');
        assert(s.drop_first() =~= dec_digits(-(n as int)));
    }
}

/// Decimal text of an integer outside the 64-bit signed range is rejected
/// as an overflow.
pub proof fn lemma_int_out_of_range(m: int)
    ensures
        m > 0x7FFF_FFFF_FFFF_FFFF ==> spec_parse_i64(int_text(m)) == Err::<i64, IntErrorKind>(
            IntErrorKind::PosOverflow,
        ),
        m < -0x8000_0000_0000_0000 ==> spec_parse_i64(int_text(m)) == Err::<i64, IntErrorKind>(
            IntErrorKind::NegOverflow,
        ),
{
    let s = int_text(m);
    if m > 0x7FFF_FFFF_FFFF_FFFF {
        lemma_dec_digits_val(m);
        assert(s[0] as int >= 48 && s[0] as int <= 57);
        assert(s[0] != '-' && s[0] != '+');
    } else if m < -0x8000_0000_0000_0000 {
        lemma_dec_digits_val(-m);
        assert(s[0] == '-');
        assert(s.drop_first() =~= dec_digits(-m));
    }
}

} // verus!
