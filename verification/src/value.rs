//! Scalar values of the structured log format, and how bracketed text is read as one.

use vstd::prelude::*;
use crate::numeral::{decimal_overflows, too_large_for_f64};
use crate::text::{chars_of, copy_chars, string_of, sub_chars, trim, trimmed};

verus! {

/// A node of a parsed log record: an object (whose members are the nodes below it) or a scalar.
pub enum LogEntry {
    Object,
    Bool(bool),
    Int(i64),
    /// A decimal numeral that is no integer of `i64` and within the range of a finite `f64`,
    /// kept as its text.
    Real(String),
    Text(String),
}

/// The mathematical content of a [`LogEntry`].
pub enum EntryView {
    Object,
    Bool(bool),
    Int(i64),
    Real(Seq<char>),
    Text(Seq<char>),
}

impl View for LogEntry {
    type V = EntryView;

    open spec fn view(&self) -> EntryView {
        match self {
            LogEntry::Object => EntryView::Object,
            LogEntry::Bool(b) => EntryView::Bool(*b),
            LogEntry::Int(i) => EntryView::Int(*i),
            LogEntry::Real(s) => EntryView::Real(s@),
            LogEntry::Text(s) => EntryView::Text(s@),
        }
    }
}

impl LogEntry {
    /// A copy of this entry.
    pub fn duplicate(&self) -> (r: LogEntry)
        ensures
            r@ == self@,
    {
        match self {
            LogEntry::Object => LogEntry::Object,
            LogEntry::Bool(b) => LogEntry::Bool(*b),
            LogEntry::Int(i) => LogEntry::Int(*i),
            LogEntry::Real(s) => LogEntry::Real(s.clone()),
            LogEntry::Text(s) => LogEntry::Text(s.clone()),
        }
    }

    /// Whether this entry is an object.
    pub fn is_object(&self) -> (r: bool)
        ensures
            r == (self@ is Object),
    {
        match self {
            LogEntry::Object => true,
            _ => false,
        }
    }
}

/// The code of `c` after ASCII lower-casing.
pub open spec fn lower_code(c: char) -> u32 {
    let u = c as u32;
    if 65 <= u <= 90 {
        (u + 32) as u32
    } else {
        u
    }
}

/// `a` equals the ASCII pattern `b` up to ASCII case, as `str::eq_ignore_ascii_case` decides it.
pub open spec fn eq_ignore_ascii_case(a: Seq<char>, b: Seq<char>) -> bool {
    a.len() == b.len() && forall|i: int| 0 <= i < a.len() ==> lower_code(a[i]) == lower_code(b[i])
}

fn lower_code_of(c: char) -> (r: u32)
    ensures
        r == lower_code(c),
{
    let u = c as u32;
    if 65 <= u && u <= 90 {
        u + 32
    } else {
        u
    }
}

/// Whether `a` equals `b` up to ASCII case.
pub fn chars_eq_ignore_ascii_case(a: &Vec<char>, b: &Vec<char>) -> (r: bool)
    ensures
        r == eq_ignore_ascii_case(a@, b@),
{
    if a.len() != b.len() {
        return false;
    }
    let n = a.len();
    for i in 0..n
        invariant
            n == a.len() == b.len(),
            forall|j: int| 0 <= j < i ==> lower_code(a@[j]) == lower_code(b@[j]),
    {
        if lower_code_of(a[i]) != lower_code_of(b[i]) {
            return false;
        }
    }
    true
}

/// `c` is an ASCII decimal digit.
pub open spec fn is_digit(c: char) -> bool {
    48 <= c as u32 <= 57
}

/// Every character of `s` is an ASCII decimal digit.
pub open spec fn all_digits(s: Seq<char>) -> bool {
    forall|i: int| 0 <= i < s.len() ==> is_digit(s[i])
}

/// The number that the decimal digits `s` write.
pub open spec fn digits_value(s: Seq<char>) -> int
    decreases s.len(),
{
    if s.len() == 0 {
        0
    } else {
        digits_value(s.drop_last()) * 10 + (s.last() as u32 - 48)
    }
}

/// `s` without one leading sign character.
pub open spec fn unsigned_part(s: Seq<char>) -> Seq<char> {
    if s.len() > 0 && (s[0] == '+' || s[0] == '-') {
        s.drop_first()
    } else {
        s
    }
}

/// The integer that the optionally signed digits `s` write.
pub open spec fn int_value(s: Seq<char>) -> int {
    if s.len() > 0 && s[0] == '-' {
        -digits_value(s.drop_first())
    } else {
        digits_value(unsigned_part(s))
    }
}

/// What `str::parse::<i64>` gives: an optional sign, at least one digit, and a value in range.
pub open spec fn spec_parse_i64(s: Seq<char>) -> Option<i64> {
    let d = unsigned_part(s);
    if d.len() > 0 && all_digits(d) && i64::MIN <= int_value(s) <= i64::MAX {
        Some(int_value(s) as i64)
    } else {
        None
    }
}

/// Reads `s` as an `i64`.
pub fn parse_i64(s: &Vec<char>) -> (r: Option<i64>)
    ensures
        r == spec_parse_i64(s@),
{
    let n = s.len();
    let mut start: usize = 0;
    let mut neg = false;
    if n > 0 && (s[0] == '+' || s[0] == '-') {
        neg = s[0] == '-';
        start = 1;
    }
    let ghost d = unsigned_part(s@);
    assert(d =~= s@.subrange(start as int, n as int));
    if start == n {
        return None;
    }
    let mut acc: u128 = 0;
    let mut big = false;
    let mut i = start;
    assert(s@.subrange(start as int, start as int) =~= Seq::<char>::empty());
    while i < n
        invariant
            start <= i <= n == s.len(),
            d == s@.subrange(start as int, n as int),
            d == unsigned_part(s@),
            neg <==> (s@.len() > 0 && s@[0] == '-'),
            neg ==> d == s@.drop_first(),
            all_digits(s@.subrange(start as int, i as int)),
            !big ==> acc == digits_value(s@.subrange(start as int, i as int)) && acc
                <= 9223372036854775808u128,
            big ==> digits_value(s@.subrange(start as int, i as int)) > 9223372036854775808,
        decreases n - i,
    {
        let u = s[i] as u32;
        if !(48 <= u && u <= 57) {
            assert(d[i - start] == s@[i as int]);
            assert(!is_digit(d[i - start]));
            assert(!all_digits(d));
            return None;
        }
        let ghost t = s@.subrange(start as int, i + 1);
        assert(t.drop_last() =~= s@.subrange(start as int, i as int));
        assert(t.last() == s@[i as int]);
        if !big {
            acc = acc * 10 + (u - 48) as u128;
            if acc > 9223372036854775808u128 {
                big = true;
            }
        }
        i += 1;
        assert(all_digits(s@.subrange(start as int, i as int)));
    }
    if big {
        return None;
    }
    if neg {
        assert(int_value(s@) == -digits_value(d));
        if acc <= 9223372036854775808u128 {
            Some((0i128 - acc as i128) as i64)
        } else {
            None
        }
    } else {
        assert(int_value(s@) == digits_value(d));
        if acc <= 9223372036854775807u128 {
            Some(acc as i64)
        } else {
            None
        }
    }
}

/// The end of the run of digits in `s` that starts at `i`.
pub open spec fn digit_run_end(s: Seq<char>, i: int) -> int
    decreases s.len() - i,
{
    if 0 <= i < s.len() && is_digit(s[i]) {
        digit_run_end(s, i + 1)
    } else {
        i
    }
}

/// The run of digits from `i` stays within `s` and holds only digits.
pub proof fn lemma_digit_run_end(s: Seq<char>, i: int)
    requires
        0 <= i <= s.len(),
    ensures
        i <= digit_run_end(s, i) <= s.len(),
        forall|j: int| i <= j < digit_run_end(s, i) ==> is_digit(#[trigger] s[j]),
    decreases s.len() - i,
{
    if i < s.len() && is_digit(s[i]) {
        lemma_digit_run_end(s, i + 1);
    }
}

/// The exponent `Sign? Digit+` of a decimal numeral starts at `k` and runs to the end of `b`.
pub open spec fn exponent_ok(b: Seq<char>, k: int) -> bool {
    let d1 = if k < b.len() && (b[k] == '+' || b[k] == '-') {
        k + 1
    } else {
        k
    };
    let d2 = digit_run_end(b, d1);
    d2 > d1 && d2 == b.len()
}

/// `b` is an unsigned decimal numeral that `str::parse::<f64>` accepts:
/// `(Digit+ | Digit+ '.' Digit* | Digit* '.' Digit+) (('e' | 'E') Sign? Digit+)?`.
pub open spec fn is_decimal_text(b: Seq<char>) -> bool {
    let a = digit_run_end(b, 0);
    let dot = a < b.len() && b[a] == '.';
    let c = if dot {
        digit_run_end(b, a + 1)
    } else {
        a
    };
    &&& (a > 0 || c > a + 1)
    &&& (c == b.len() || (c < b.len() && lower_code(b[c]) == 101 && exponent_ok(b, c + 1)))
}

/// `b` names an infinity or a NaN, which `str::parse::<f64>` accepts in any ASCII case.
pub open spec fn is_nonfinite_text(b: Seq<char>) -> bool {
    ||| eq_ignore_ascii_case(b, "inf"@)
    ||| eq_ignore_ascii_case(b, "infinity"@)
    ||| eq_ignore_ascii_case(b, "nan"@)
}

pub(crate) fn is_digit_char(c: char) -> (r: bool)
    ensures
        r == is_digit(c),
{
    let u = c as u32;
    48 <= u && u <= 57
}

/// Where the run of digits in `s` that starts at `i` ends.
pub(crate) fn run_end(s: &Vec<char>, i: usize) -> (r: usize)
    requires
        i <= s.len(),
    ensures
        r == digit_run_end(s@, i as int),
{
    let mut j = i;
    while j < s.len() && is_digit_char(s[j])
        invariant
            i <= j <= s.len(),
            digit_run_end(s@, i as int) == digit_run_end(s@, j as int),
        decreases s.len() - j,
    {
        j += 1;
    }
    j
}

/// Whether `b` is an unsigned decimal numeral.
pub fn decimal_text(b: &Vec<char>) -> (r: bool)
    ensures
        r == is_decimal_text(b@),
{
    let n = b.len();
    let a = run_end(b, 0);
    proof {
        lemma_digit_run_end(b@, 0);
    }
    let dot = a < n && b[a] == '.';
    let c = if dot {
        run_end(b, a + 1)
    } else {
        a
    };
    proof {
        if dot {
            lemma_digit_run_end(b@, a + 1);
        }
    }
    if !(a > 0 || c > a + 1) {
        return false;
    }
    if c == n {
        return true;
    }
    if lower_code_of(b[c]) != 101 {
        return false;
    }
    let k = c + 1;
    let d1 = if k < n && (b[k] == '+' || b[k] == '-') {
        k + 1
    } else {
        k
    };
    let d2 = run_end(b, d1);
    d2 > d1 && d2 == n
}

/// How `parse_value` reads bracketed text: a boolean in any ASCII case, then an `i64`,
/// then a decimal numeral (an infinity, a NaN, or a numeral too large for a finite `f64`
/// reads as the integer 0), else the text itself.
pub open spec fn spec_parse_value(s: Seq<char>) -> EntryView {
    let t = trim(s);
    if eq_ignore_ascii_case(t, "true"@) {
        EntryView::Bool(true)
    } else if eq_ignore_ascii_case(t, "false"@) {
        EntryView::Bool(false)
    } else if spec_parse_i64(t) is Some {
        EntryView::Int(spec_parse_i64(t)->0)
    } else if is_nonfinite_text(unsigned_part(t)) {
        EntryView::Int(0)
    } else if is_decimal_text(unsigned_part(t)) && decimal_overflows(unsigned_part(t)) {
        EntryView::Int(0)
    } else if is_decimal_text(unsigned_part(t)) {
        EntryView::Real(t)
    } else {
        EntryView::Text(t)
    }
}

/// Reads the text between brackets as a scalar.
pub fn parse_value(s: &Vec<char>) -> (r: LogEntry)
    ensures
        r@ == spec_parse_value(s@),
{
    let t = trimmed(s);
    if chars_eq_ignore_ascii_case(&t, &chars_of("true")) {
        return LogEntry::Bool(true);
    }
    if chars_eq_ignore_ascii_case(&t, &chars_of("false")) {
        return LogEntry::Bool(false);
    }
    if let Some(i) = parse_i64(&t) {
        return LogEntry::Int(i);
    }
    let n = t.len();
    let b = if n > 0 && (t[0] == '+' || t[0] == '-') {
        sub_chars(&t, 1, n)
    } else {
        copy_chars(&t)
    };
    assert(b@ =~= unsigned_part(t@));
    if chars_eq_ignore_ascii_case(&b, &chars_of("inf")) || chars_eq_ignore_ascii_case(
        &b,
        &chars_of("infinity"),
    ) || chars_eq_ignore_ascii_case(&b, &chars_of("nan")) {
        return LogEntry::Int(0);
    }
    if decimal_text(&b) {
        if too_large_for_f64(&b) {
            return LogEntry::Int(0);
        }
        LogEntry::Real(string_of(&t))
    } else {
        LogEntry::Text(string_of(&t))
    }
}

/// The decimal digit character for `d`.
pub open spec fn digit_char(d: int) -> char {
    ((d + 48) as u8) as char
}

/// The decimal digits of `n`, without leading zeros.
pub open spec fn nat_text(n: nat) -> Seq<char>
    decreases n,
{
    if n < 10 {
        seq![digit_char(n as int)]
    } else {
        nat_text(n / 10).push(digit_char((n % 10) as int))
    }
}

/// `i` written in decimal, as `i64::to_string` writes it.
pub open spec fn i64_text(i: i64) -> Seq<char> {
    if i < 0 {
        seq!['-'] + nat_text((-i) as nat)
    } else {
        nat_text(i as nat)
    }
}

pub(crate) fn push_digits(out: &mut Vec<char>, n: u64)
    ensures
        final(out)@ == old(out)@ + nat_text(n as nat),
    decreases n,
{
    if n >= 10 {
        push_digits(out, n / 10);
    }
    let d = n % 10;
    let c = ((d + 48) as u8) as char;
    out.push(c);
    proof {
        if n >= 10 {
            assert(old(out)@ + nat_text(n as nat) =~= old(out)@ + nat_text((n / 10) as nat) + seq![c]);
        } else {
            assert(nat_text(n as nat) =~= seq![c]);
        }
    }
}

/// `i` written in decimal.
pub fn i64_to_text(i: i64) -> (r: Vec<char>)
    ensures
        r@ == i64_text(i),
{
    let mut out: Vec<char> = Vec::new();
    if i < 0 {
        out.push('-');
        let m = (0i128 - i as i128) as u64;
        push_digits(&mut out, m);
    } else {
        push_digits(&mut out, i as u64);
    }
    out
}


/// Law: a bracketed value read as a decimal keeps its text whole, the sign included, so it
/// stands for the number the numeral writes; and a signed finite decimal that is no `i64`
/// reads as itself.
pub proof fn lemma_decimal_keeps_text(s: Seq<char>)
    ensures
        spec_parse_value(s) matches EntryView::Real(x) ==> x == trim(s),
        ({
            let t = trim(s);
            (t.len() > 0 && (t[0] == '-' || t[0] == '+') && is_decimal_text(t.drop_first())
                && !decimal_overflows(t.drop_first()) && spec_parse_i64(t) is None
                && !is_nonfinite_text(t.drop_first())) ==> spec_parse_value(s) == EntryView::Real(t)
        }),
{
    let t = trim(s);
    if t.len() > 0 && (t[0] == '-' || t[0] == '+') {
        reveal_strlit("true");
        reveal_strlit("false");
        assert(unsigned_part(t) == t.drop_first());
        assert(eq_ignore_ascii_case(t, "true"@) ==> lower_code(t[0]) == lower_code("true"@[0]));
        assert(eq_ignore_ascii_case(t, "false"@) ==> lower_code(t[0]) == lower_code("false"@[0]));
    }
}

} // verus!
