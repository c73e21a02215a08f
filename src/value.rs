//! Classification of a raw token into one of the four kinds of value.
use vstd::prelude::*;
use crate::text::{chars_of, string_of};

verus! {

/// One CIF value.
#[derive(Debug, Clone)]
pub enum CifValue {
    /// Text, with quoting and multi-line delimiters already removed.
    Text(String),
    /// A number, held as its decimal literal with any uncertainty suffix
    /// removed (`1.2300(15)` is held as `1.2300`).
    Numeric(String),
    /// The `?` sentinel: the value was not determined.
    Unknown,
    /// The `.` sentinel: the value does not apply.
    NotApplicable,
}

pub open spec fn is_digit(c: char) -> bool {
    '0' <= c && c <= '9'
}

/// The end of the run of digits in `s` that starts at `i`.
pub open spec fn digit_run_end(s: Seq<char>, i: int) -> int
    decreases s.len() - i,
{
    if 0 <= i < s.len() && is_digit(s[i]) {
        digit_run_end(s, i + 1)
    } else {
        i
    }
}

/// The start of the run of digits in `s` that ends just before `j`.
pub open spec fn digit_run_start(s: Seq<char>, j: int) -> int
    decreases j,
{
    if 0 < j <= s.len() && is_digit(s[j - 1]) {
        digit_run_start(s, j - 1)
    } else {
        j
    }
}

/// Whether `s` ends in an uncertainty suffix: `(`, one or more digits, `)`.
pub open spec fn has_uncertainty(s: Seq<char>) -> bool {
    let d = digit_run_start(s, s.len() - 1);
    &&& s.len() >= 3
    &&& s[s.len() - 1] == ')'
    &&& d < s.len() - 1
    &&& d >= 1
    &&& s[d - 1] == '('
}

/// `s` without its uncertainty suffix, if it has one.
pub open spec fn strip_uncertainty(s: Seq<char>) -> Seq<char> {
    if has_uncertainty(s) {
        s.subrange(0, digit_run_start(s, s.len() - 1) - 1)
    } else {
        s
    }
}

/// Where the unsigned part of a literal begins.
pub open spec fn sign_len(s: Seq<char>) -> int {
    if s.len() > 0 && (s[0] == '+' || s[0] == '-') {
        1
    } else {
        0
    }
}

/// Whether the part of `s` from `i` on is an exponent: `e` or `E`, an
/// optional sign, and one or more digits.
pub open spec fn is_exponent_from(s: Seq<char>, i: int) -> bool {
    let j = if i + 1 < s.len() && (s[i + 1] == '+' || s[i + 1] == '-') {
        i + 2
    } else {
        i + 1
    };
    &&& 0 <= i < s.len()
    &&& (s[i] == 'e' || s[i] == 'E')
    &&& j < s.len()
    &&& digit_run_end(s, j) == s.len()
}

/// Whether `s` as a whole is a signed decimal or exponential literal:
/// an optional sign, digits with an optional decimal point (at least one
/// digit in all), and an optional exponent.
pub open spec fn is_number_literal(s: Seq<char>) -> bool {
    let a = sign_len(s);
    let b = digit_run_end(s, a);
    let has_point = b < s.len() && s[b] == '.';
    let c = if has_point { digit_run_end(s, b + 1) } else { b };
    let n_digits = if has_point { (b - a) + (c - b - 1) } else { b - a };
    &&& n_digits > 0
    &&& (c == s.len() || is_exponent_from(s, c))
}

/// The value that a raw token denotes.
pub open spec fn classify_spec(t: Seq<char>) -> CifValueModel {
    if t == seq!['?'] {
        CifValueModel::Unknown
    } else if t == seq!['.'] {
        CifValueModel::NotApplicable
    } else if is_number_literal(strip_uncertainty(t)) {
        CifValueModel::Numeric(strip_uncertainty(t))
    } else {
        CifValueModel::Text(t)
    }
}

/// A value, with its strings seen as sequences of characters.
pub enum CifValueModel {
    Text(Seq<char>),
    Numeric(Seq<char>),
    Unknown,
    NotApplicable,
}

impl View for CifValue {
    type V = CifValueModel;

    open spec fn view(&self) -> CifValueModel {
        match self {
            CifValue::Text(s) => CifValueModel::Text(s@),
            CifValue::Numeric(s) => CifValueModel::Numeric(s@),
            CifValue::Unknown => CifValueModel::Unknown,
            CifValue::NotApplicable => CifValueModel::NotApplicable,
        }
    }
}

impl CifValue {
    pub fn is_text(&self) -> (r: bool)
        ensures
            r == self is Text,
    {
        matches!(self, CifValue::Text(_))
    }

    pub fn is_numeric(&self) -> (r: bool)
        ensures
            r == self is Numeric,
    {
        matches!(self, CifValue::Numeric(_))
    }

    pub fn is_unknown(&self) -> (r: bool)
        ensures
            r == self is Unknown,
    {
        matches!(self, CifValue::Unknown)
    }

    pub fn is_not_applicable(&self) -> (r: bool)
        ensures
            r == self is NotApplicable,
    {
        matches!(self, CifValue::NotApplicable)
    }

    /// The text of a Text value.
    pub fn as_string(&self) -> (r: Option<&String>)
        ensures
            r == (match self {
                CifValue::Text(s) => Some(s),
                _ => None,
            }),
    {
        match self {
            CifValue::Text(s) => Some(s),
            _ => None,
        }
    }

    /// The literal of a Numeric value.
    pub fn as_numeric(&self) -> (r: Option<&String>)
        ensures
            r == (match self {
                CifValue::Numeric(s) => Some(s),
                _ => None,
            }),
    {
        match self {
            CifValue::Numeric(s) => Some(s),
            _ => None,
        }
    }

    /// The name of the value's kind: `text`, `numeric`, `unknown` or
    /// `not_applicable`.
    pub fn value_type(&self) -> (r: &'static str)
        ensures
            self is Text ==> r@ == "text"@,
            self is Numeric ==> r@ == "numeric"@,
            self is Unknown ==> r@ == "unknown"@,
            self is NotApplicable ==> r@ == "not_applicable"@,
    {
        match self {
            CifValue::Text(_) => "text",
            CifValue::Numeric(_) => "numeric",
            CifValue::Unknown => "unknown",
            CifValue::NotApplicable => "not_applicable",
        }
    }

    /// A copy of the value.
    pub fn duplicate(&self) -> (r: CifValue)
        ensures
            r@ == self@,
    {
        match self {
            CifValue::Text(s) => CifValue::Text(s.clone()),
            CifValue::Numeric(s) => CifValue::Numeric(s.clone()),
            CifValue::Unknown => CifValue::Unknown,
            CifValue::NotApplicable => CifValue::NotApplicable,
        }
    }
}

proof fn lemma_run_end_digits(s: Seq<char>, i: int)
    requires
        0 <= i <= s.len(),
    ensures
        i <= digit_run_end(s, i) <= s.len(),
        forall|k: int| i <= k < digit_run_end(s, i) ==> is_digit(#[trigger] s[k]),
    decreases s.len() - i,
{
    if i < s.len() && is_digit(s[i]) {
        lemma_run_end_digits(s, i + 1);
    }
}

/// The last character of a number literal is a digit or a decimal point.
proof fn lemma_literal_last(s: Seq<char>)
    requires
        is_number_literal(s),
    ensures
        s.len() > 0,
        is_digit(s[s.len() - 1]) || s[s.len() - 1] == '.',
{
    let a = sign_len(s);
    lemma_run_end_digits(s, a);
    let b = digit_run_end(s, a);
    if b < s.len() && s[b] == '.' {
        lemma_run_end_digits(s, b + 1);
    }
    let c = if b < s.len() && s[b] == '.' { digit_run_end(s, b + 1) } else { b };
    if c < s.len() {
        let j = if c + 1 < s.len() && (s[c + 1] == '+' || s[c + 1] == '-') { c + 2 } else { c + 1 };
        lemma_run_end_digits(s, j);
    }
}

/// Every token is classified as exactly one kind of value, by its text
/// alone, and the text that a Text or Numeric value holds is classified
/// again as that same value.
pub proof fn lemma_classify_stable(t: Seq<char>)
    ensures
        classify_spec(t) is Text ==> classify_spec(t) == CifValueModel::Text(t),
        classify_spec(t) is Text ==> classify_spec(classify_spec(t)->Text_0) == classify_spec(t),
        classify_spec(t) is Numeric ==> classify_spec(classify_spec(t)->Numeric_0) == classify_spec(t),
{
    if classify_spec(t) is Numeric {
        let s = strip_uncertainty(t);
        lemma_literal_last(s);
        assert(!has_uncertainty(s));
        assert(strip_uncertainty(s) == s);
        assert(s != seq!['?']) by {
            if s == seq!['?'] {
                assert(s[s.len() - 1] == '?');
            }
        }
        assert(s != seq!['.']) by {
            if s == seq!['.'] {
                assert(s[0] == '.');
                assert(sign_len(s) == 0);
                assert(digit_run_end(s, 0) == 0);
                assert(digit_run_end(s, 1) == 1);
            }
        }
    }
}

/// `?` is always Unknown and `.` always NotApplicable; no other token is
/// either of them, and neither of them is Text or Numeric.
pub proof fn lemma_sentinels(t: Seq<char>)
    ensures
        (classify_spec(t) is Unknown) <==> t == seq!['?'],
        (classify_spec(t) is NotApplicable) <==> t == seq!['.'],
        (t == seq!['?'] || t == seq!['.']) ==> !(classify_spec(t) is Text) && !(classify_spec(
            t,
        ) is Numeric),
{
    if t == seq!['?'] {
        assert(t != seq!['.']) by {
            assert(t[0] == '?');
        }
    }
}

fn is_digit_char(c: char) -> (r: bool)
    ensures
        r == is_digit(c),
{
    '0' <= c && c <= '9'
}

fn run_end(s: &[char], i: usize) -> (r: usize)
    requires
        i <= s@.len(),
    ensures
        r == digit_run_end(s@, i as int),
        i <= r <= s@.len(),
{
    let mut j: usize = i;
    while j < s.len() && is_digit_char(s[j])
        invariant
            i <= j <= s@.len(),
            digit_run_end(s@, j as int) == digit_run_end(s@, i as int),
        decreases s@.len() - j,
    {
        j = j + 1;
    }
    j
}

fn run_start(s: &[char], j: usize) -> (r: usize)
    requires
        j <= s@.len(),
    ensures
        r == digit_run_start(s@, j as int),
        r <= j,
{
    let mut i: usize = j;
    while i > 0 && is_digit_char(s[i - 1])
        invariant
            i <= j <= s@.len(),
            digit_run_start(s@, i as int) == digit_run_start(s@, j as int),
        decreases i,
    {
        i = i - 1;
    }
    i
}

/// The length of `t` once its uncertainty suffix is removed.
fn stripped_len(t: &[char]) -> (r: usize)
    ensures
        r <= t@.len(),
        t@.subrange(0, r as int) == strip_uncertainty(t@),
{
    let n = t.len();
    if n >= 3 && t[n - 1] == ')' {
        let d = run_start(t, n - 1);
        if d < n - 1 && d >= 1 && t[d - 1] == '(' {
            return d - 1;
        }
    }
    assert(t@.subrange(0, n as int) =~= t@);
    n
}

/// Whether the first `n` characters of `s` form a number literal.
fn is_literal_prefix(s: &[char], n: usize) -> (r: bool)
    requires
        n <= s@.len(),
    ensures
        r == is_number_literal(s@.subrange(0, n as int)),
{
    let ghost p = s@.subrange(0, n as int);
    let a: usize = if n > 0 && (s[0] == '+' || s[0] == '-') { 1 } else { 0 };
    assert(a == sign_len(p));
    let b = run_end_bounded(s, a, n);
    let has_point = b < n && s[b] == '.';
    let c = if has_point { run_end_bounded(s, b + 1, n) } else { b };
    let n_digits: usize = if has_point { (b - a) + (c - b - 1) } else { b - a };
    if n_digits == 0 {
        return false;
    }
    if c == n {
        return true;
    }
    if !(s[c] == 'e' || s[c] == 'E') {
        return false;
    }
    let j: usize = if c + 1 < n && (s[c + 1] == '+' || s[c + 1] == '-') { c + 2 } else { c + 1 };
    if j >= n {
        return false;
    }
    run_end_bounded(s, j, n) == n
}

/// `run_end` on the first `n` characters of `s`.
fn run_end_bounded(s: &[char], i: usize, n: usize) -> (r: usize)
    requires
        i <= n <= s@.len(),
    ensures
        r == digit_run_end(s@.subrange(0, n as int), i as int),
        i <= r <= n,
{
    let ghost p = s@.subrange(0, n as int);
    let mut j: usize = i;
    while j < n && is_digit_char(s[j])
        invariant
            i <= j <= n <= s@.len(),
            p == s@.subrange(0, n as int),
            digit_run_end(p, j as int) == digit_run_end(p, i as int),
        decreases n - j,
    {
        j = j + 1;
    }
    j
}

/// Classify a token held as characters.
pub fn classify_chars(t: &[char]) -> (r: CifValue)
    ensures
        r@ == classify_spec(t@),
{
    if t.len() == 1 && t[0] == '?' {
        assert(t@ =~= seq!['?']);
        return CifValue::Unknown;
    }
    if t.len() == 1 && t[0] == '.' {
        assert(t@ =~= seq!['.']);
        return CifValue::NotApplicable;
    }
    assert(t@ != seq!['?']) by {
        if t@ == seq!['?'] {
            assert(t@[0] == '?');
        }
    }
    assert(t@ != seq!['.']) by {
        if t@ == seq!['.'] {
            assert(t@[0] == '.');
        }
    }
    let n = stripped_len(t);
    if is_literal_prefix(t, n) {
        CifValue::Numeric(string_of(&t[0..n]))
    } else {
        CifValue::Text(string_of(t))
    }
}

/// Classify a raw token: `?` is Unknown, `.` is NotApplicable, a number
/// literal (after removing an uncertainty suffix) is Numeric, and anything
/// else is Text holding the token unchanged.
pub fn classify(raw: &str) -> (r: CifValue)
    ensures
        r@ == classify_spec(raw@),
{
    let cs = chars_of(raw);
    classify_chars(cs.as_slice())
}

} // verus!
