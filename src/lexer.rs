//! Scanning CIF text into tokens.
//!
//! The scan has three modes: normal (bare words, comments, and the start of
//! quoted strings and text fields), inside a quoted string, and inside a
//! multi-line text field.
use vstd::prelude::*;
use crate::error::CifError;
use crate::text::{at_line, chars_of, string_of};

verus! {

/// How a token was written.
#[derive(Debug, Clone, Copy, PartialEq, Eq, Structural)]
pub enum TokenKind {
    /// A run of non-whitespace characters.
    Bare,
    /// A string between `'` or `"` delimiters.
    Quoted,
    /// A multi-line text field between lines that begin with `;`.
    TextField,
}

/// A token: its text without delimiters, and the line it starts on.
#[derive(Debug, Clone)]
pub struct Token {
    pub text: String,
    pub line: usize,
    pub kind: TokenKind,
}

/// A token whose text is held as characters.
pub struct RawToken {
    pub chars: Vec<char>,
    pub line: usize,
    pub kind: TokenKind,
}

pub open spec fn is_space(c: char) -> bool {
    c == ' ' || c == '\t' || c == '\r' || c == '\n'
}

/// What holds of every token of a scan.
pub open spec fn token_ok(chars: Seq<char>, line: usize, kind: TokenKind) -> bool {
    &&& line >= 1
    &&& kind == TokenKind::Bare ==> {
        &&& chars.len() > 0
        &&& forall|k: int| 0 <= k < chars.len() ==> !is_space(#[trigger] chars[k])
        &&& chars[0] != '\'' && chars[0] != '"' && chars[0] != '#'
    }
}

/// Whether `s` holds none of the characters that open a quoted string or
/// a text field.
pub open spec fn has_no_delimiters(s: Seq<char>) -> bool {
    forall|k: int|
        0 <= k < s.len() ==> #[trigger] s[k] != ';' && s[k] != '\'' && s[k] != '"'
}

/// The end of the run of non-whitespace characters that starts at `i`.
pub open spec fn word_end(s: Seq<char>, i: int) -> int
    decreases s.len() - i,
{
    if 0 <= i < s.len() && !is_space(s[i]) {
        word_end(s, i + 1)
    } else {
        i
    }
}

/// The line break that ends a comment starting at `i`, or the end of `s`.
pub open spec fn comment_end(s: Seq<char>, i: int) -> int
    decreases s.len() - i,
{
    if 0 <= i < s.len() && s[i] != '\n' {
        comment_end(s, i + 1)
    } else {
        i
    }
}

/// The line break before the `;` that closes a text field whose content
/// starts at `j`, or the end of `s`.
pub open spec fn field_end(s: Seq<char>, j: int) -> int
    decreases s.len() - j,
{
    if 0 <= j < s.len() && !(s[j] == '\n' && j + 1 < s.len() && s[j + 1] == ';') {
        field_end(s, j + 1)
    } else {
        j
    }
}

/// The quote `q` that closes a string whose content starts at `j`: one
/// followed by whitespace or by the end of `s`. The end of `s` if none.
pub open spec fn quote_end(s: Seq<char>, j: int, q: char) -> int
    decreases s.len() - j,
{
    if 0 <= j < s.len() && !(s[j] == q && (j + 1 == s.len() || is_space(s[j + 1]))) {
        quote_end(s, j + 1, q)
    } else {
        j
    }
}

/// `x` followed by the tokens of `rest`, if `rest` scanned.
pub open spec fn prepend(x: (Seq<char>, TokenKind), rest: Option<Seq<(Seq<char>, TokenKind)>>) -> Option<Seq<(Seq<char>, TokenKind)>> {
    match rest {
        Some(t) => Some(seq![x] + t),
        None => None,
    }
}

/// The tokens of `s` from position `i` on, each as its text and kind, or
/// `None` where a quoted string or text field is left open. Whitespace
/// separates tokens; `#` starts a comment that runs to the end of the line;
/// `;` as the first character of a line opens a text field that runs to
/// the next line that begins with `;` (a line break right after the opening
/// `;` and the one before the closing `;` are not part of it); `'` or `"`
/// opens a string closed by the same quote followed by whitespace or the end.
pub open spec fn scan(s: Seq<char>, i: int) -> Option<Seq<(Seq<char>, TokenKind)>>
    decreases s.len() - i,
    via scan_decreases
{
    if i < 0 || i >= s.len() {
        Some(Seq::empty())
    } else if is_space(s[i]) {
        scan(s, i + 1)
    } else if s[i] == ';' && (i == 0 || s[i - 1] == '\n') {
        let j = if i + 1 < s.len() && s[i + 1] == '\n' { i + 2 } else { i + 1 };
        let k = field_end(s, j);
        if k >= s.len() {
            None
        } else {
            prepend((s.subrange(j, k), TokenKind::TextField), scan(s, k + 2))
        }
    } else if s[i] == '#' {
        scan(s, comment_end(s, i))
    } else if s[i] == '\'' || s[i] == '"' {
        let k = quote_end(s, i + 1, s[i]);
        if k >= s.len() {
            None
        } else {
            prepend((s.subrange(i + 1, k), TokenKind::Quoted), scan(s, k + 1))
        }
    } else {
        prepend((s.subrange(i, word_end(s, i)), TokenKind::Bare), scan(s, word_end(s, i)))
    }
}

/// `p` followed by the tokens of `rest`, if `rest` scanned.
pub open spec fn prepend_all(p: Seq<(Seq<char>, TokenKind)>, rest: Option<Seq<(Seq<char>, TokenKind)>>) -> Option<Seq<(Seq<char>, TokenKind)>> {
    match rest {
        Some(t) => Some(p + t),
        None => None,
    }
}

/// Raw tokens as text and kind.
pub open spec fn raw_model(v: Seq<RawToken>) -> Seq<(Seq<char>, TokenKind)> {
    v.map_values(|t: RawToken| (t.chars@, t.kind))
}

/// Tokens as text and kind.
pub open spec fn token_model(v: Seq<Token>) -> Seq<(Seq<char>, TokenKind)> {
    v.map_values(|t: Token| (t.text@, t.kind))
}

proof fn lemma_prepend_step(p: Seq<(Seq<char>, TokenKind)>, x: (Seq<char>, TokenKind), rest: Option<Seq<(Seq<char>, TokenKind)>>)
    ensures
        prepend_all(p, prepend(x, rest)) == prepend_all(p.push(x), rest),
{
    if rest is Some {
        assert(p + (seq![x] + rest->Some_0) =~= p.push(x) + rest->Some_0);
    }
}

/// The number of line breaks in `s` from `i` up to `j`.
pub open spec fn breaks(s: Seq<char>, i: int, j: int) -> int
    decreases j - i,
{
    if j <= i {
        0
    } else {
        breaks(s, i, j - 1) + if s[j - 1] == '\n' { 1int } else { 0int }
    }
}

/// The number of the line that position `p` of `s` is on, counted from 1
/// and held within `usize`.
pub open spec fn line_number(s: Seq<char>, p: int) -> int {
    let l = 1 + breaks(s, 0, p);
    if l <= usize::MAX {
        l
    } else {
        usize::MAX as int
    }
}

/// Where the tokens of `s` from `i` on start, in the order `scan` gives
/// them.
pub open spec fn token_starts(s: Seq<char>, i: int) -> Seq<int>
    decreases s.len() - i,
    via starts_decreases
{
    if i < 0 || i >= s.len() {
        Seq::empty()
    } else if is_space(s[i]) {
        token_starts(s, i + 1)
    } else if s[i] == ';' && (i == 0 || s[i - 1] == '\n') {
        let j = if i + 1 < s.len() && s[i + 1] == '\n' { i + 2 } else { i + 1 };
        let k = field_end(s, j);
        if k >= s.len() {
            Seq::empty()
        } else {
            seq![i] + token_starts(s, k + 2)
        }
    } else if s[i] == '#' {
        token_starts(s, comment_end(s, i))
    } else if s[i] == '\'' || s[i] == '"' {
        let k = quote_end(s, i + 1, s[i]);
        if k >= s.len() {
            Seq::empty()
        } else {
            seq![i] + token_starts(s, k + 1)
        }
    } else {
        seq![i] + token_starts(s, word_end(s, i))
    }
}

#[via_fn]
proof fn starts_decreases(s: Seq<char>, i: int) {
    if 0 <= i < s.len() && !is_space(s[i]) {
        if s[i] == ';' && (i == 0 || s[i - 1] == '\n') {
            let j = if i + 1 < s.len() && s[i + 1] == '\n' { i + 2 } else { i + 1 };
            lemma_field_end(s, j);
        } else if s[i] == '#' {
            lemma_comment_end(s, i + 1);
        } else if s[i] == '\'' || s[i] == '"' {
            lemma_quote_end(s, i + 1, s[i]);
        } else {
            lemma_word_end(s, i + 1);
        }
    }
}

proof fn lemma_breaks_nonneg(s: Seq<char>, i: int, j: int)
    ensures
        breaks(s, i, j) >= 0,
    decreases j - i,
{
    if j > i {
        lemma_breaks_nonneg(s, i, j - 1);
    }
}

proof fn lemma_breaks_split(s: Seq<char>, i: int, m: int, j: int)
    requires
        i <= m <= j,
    ensures
        breaks(s, i, j) == breaks(s, i, m) + breaks(s, m, j),
    decreases j - m,
{
    if j > m {
        lemma_breaks_split(s, i, m, j - 1);
    }
}

proof fn lemma_word_end(s: Seq<char>, i: int)
    requires
        0 <= i <= s.len(),
    ensures
        i <= word_end(s, i) <= s.len(),
        forall|m: int| i <= m < word_end(s, i) ==> !is_space(#[trigger] s[m]),
    decreases s.len() - i,
{
    if i < s.len() && !is_space(s[i]) {
        lemma_word_end(s, i + 1);
    }
}

proof fn lemma_comment_end(s: Seq<char>, i: int)
    requires
        0 <= i <= s.len(),
    ensures
        i <= comment_end(s, i) <= s.len(),
    decreases s.len() - i,
{
    if i < s.len() && s[i] != '\n' {
        lemma_comment_end(s, i + 1);
    }
}

proof fn lemma_field_end(s: Seq<char>, j: int)
    requires
        0 <= j <= s.len(),
    ensures
        j <= field_end(s, j) <= s.len(),
        field_end(s, j) < s.len() ==> s[field_end(s, j)] == '\n' && field_end(s, j) + 1 < s.len(),
    decreases s.len() - j,
{
    if j < s.len() && !(s[j] == '\n' && j + 1 < s.len() && s[j + 1] == ';') {
        lemma_field_end(s, j + 1);
    }
}

proof fn lemma_quote_end(s: Seq<char>, j: int, q: char)
    requires
        0 <= j <= s.len(),
    ensures
        j <= quote_end(s, j, q) <= s.len(),
    decreases s.len() - j,
{
    if j < s.len() && !(s[j] == q && (j + 1 == s.len() || is_space(s[j + 1]))) {
        lemma_quote_end(s, j + 1, q);
    }
}

#[via_fn]
proof fn scan_decreases(s: Seq<char>, i: int) {
    if 0 <= i < s.len() && !is_space(s[i]) {
        if s[i] == ';' && (i == 0 || s[i - 1] == '\n') {
            let j = if i + 1 < s.len() && s[i + 1] == '\n' { i + 2 } else { i + 1 };
            lemma_field_end(s, j);
        } else if s[i] == '#' {
            lemma_comment_end(s, i + 1);
        } else if s[i] == '\'' || s[i] == '"' {
            lemma_quote_end(s, i + 1, s[i]);
        } else {
            lemma_word_end(s, i + 1);
        }
    }
}

fn is_space_char(c: char) -> (r: bool)
    ensures
        r == is_space(c),
{
    c == ' ' || c == '\t' || c == '\r' || c == '\n'
}

/// The characters of `s` from `i` up to `j`.
pub(crate) fn copy_range(s: &[char], i: usize, j: usize) -> (r: Vec<char>)
    requires
        i <= j <= s@.len(),
    ensures
        r@ == s@.subrange(i as int, j as int),
{
    let mut r: Vec<char> = Vec::new();
    let mut k: usize = i;
    while k < j
        invariant
            i <= k <= j <= s@.len(),
            r@ == s@.subrange(i as int, k as int),
        decreases j - k,
    {
        r.push(s[k]);
        k = k + 1;
        assert(r@ =~= s@.subrange(i as int, k as int));
    }
    r
}

/// The number of line breaks in `s` from `i` up to `j`.
fn count_lines(s: &[char], i: usize, j: usize) -> (r: usize)
    requires
        i <= j <= s@.len(),
    ensures
        r <= j - i,
        r == breaks(s@, i as int, j as int),
{
    let mut r: usize = 0;
    let mut k: usize = i;
    while k < j
        invariant
            i <= k <= j <= s@.len(),
            r <= k - i,
            r == breaks(s@, i as int, k as int),
        decreases j - k,
    {
        if s[k] == '\n' {
            r = r + 1;
        }
        k = k + 1;
    }
    r
}

/// Adds `b` to a line number, staying within `usize`.
fn advance_line(a: usize, b: usize) -> (r: usize)
    requires
        a >= 1,
    ensures
        r >= 1,
        r == (if a + b <= usize::MAX { a + b } else { usize::MAX as int }),
{
    if a <= usize::MAX - b {
        a + b
    } else {
        usize::MAX
    }
}

/// The position of the line break that precedes the `;` closing a text
/// field whose content starts at `j`, or `s.len()` if there is none.
fn find_field_end(s: &[char], j: usize) -> (r: usize)
    requires
        j <= s@.len(),
    ensures
        j <= r <= s@.len(),
        r == field_end(s@, j as int),
        r < s@.len() ==> s@[r as int] == '\n' && r + 1 < s@.len() && s@[r + 1] == ';',
{
    let n = s.len();
    let mut k: usize = j;
    while k < n && !(s[k] == '\n' && k + 1 < n && s[k + 1] == ';')
        invariant
            j <= k <= n == s@.len(),
            field_end(s@, k as int) == field_end(s@, j as int),
        decreases n - k,
    {
        k = k + 1;
    }
    k
}

/// The position of the quote `q` that closes a string whose content starts
/// at `j`: one followed by whitespace or by the end of the text. `s.len()`
/// if there is none.
fn find_quote_end(s: &[char], j: usize, q: char) -> (r: usize)
    requires
        j <= s@.len(),
    ensures
        j <= r <= s@.len(),
        r == quote_end(s@, j as int, q),
        r < s@.len() ==> s@[r as int] == q,
{
    let n = s.len();
    let mut k: usize = j;
    while k < n && !(s[k] == q && (k + 1 == n || is_space_char(s[k + 1])))
        invariant
            j <= k <= n == s@.len(),
            quote_end(s@, k as int, q) == quote_end(s@, j as int, q),
        decreases n - k,
    {
        k = k + 1;
    }
    k
}

/// Scan characters into tokens.
pub fn tokenize_chars(s: &[char]) -> (r: Result<Vec<RawToken>, CifError>)
    ensures
        r is Err ==> r->Err_0 is ParseError,
        r is Ok ==> forall|t: int| 0 <= t < r->Ok_0@.len() ==> #[trigger] token_ok(
            r->Ok_0@[t].chars@,
            r->Ok_0@[t].line,
            r->Ok_0@[t].kind,
        ),
        has_no_delimiters(s@) ==> r is Ok,
        r is Ok <==> scan(s@, 0) is Some,
        r is Ok ==> raw_model(r->Ok_0@) == scan(s@, 0)->Some_0,
        r is Ok ==> token_starts(s@, 0).len() == r->Ok_0@.len() && forall|t: int|
            0 <= t < r->Ok_0@.len() ==> (#[trigger] r->Ok_0@[t]).line == line_number(s@, token_starts(s@, 0)[t]),
{
    let n = s.len();
    let mut tokens: Vec<RawToken> = Vec::new();
    let mut i: usize = 0;
    let mut line: usize = 1;
    let ghost mut starts: Seq<int> = Seq::empty();
    assert(starts + token_starts(s@, 0) =~= token_starts(s@, 0));
    while i < n
        invariant
            i <= n == s@.len(),
            line >= 1,
            scan(s@, 0) == prepend_all(raw_model(tokens@), scan(s@, i as int)),
            line as int == line_number(s@, i as int),
            token_starts(s@, 0) == starts + token_starts(s@, i as int),
            starts.len() == tokens@.len(),
            forall|t: int| 0 <= t < tokens@.len() ==> (#[trigger] tokens@[t]).line == line_number(s@, starts[t]),
            forall|t: int| 0 <= t < tokens@.len() ==> #[trigger] token_ok(
                tokens@[t].chars@,
                tokens@[t].line,
                tokens@[t].kind,
            ),
        decreases n - i,
    {
        let c = s[i];
        let ghost old_tokens = tokens@;
        let ghost old_starts = starts;
        proof {
            lemma_breaks_nonneg(s@, 0, i as int);
            assert(breaks(s@, 0, i + 1) == breaks(s@, 0, i as int) + if s@[i as int] == '\n' { 1int } else { 0int });
        }
        if c == '\n' {
            line = advance_line(line, 1);
            i = i + 1;
        } else if is_space_char(c) {
            i = i + 1;
        } else if c == ';' && (i == 0 || s[i - 1] == '\n') {
            let mut j: usize = i + 1;
            if j < n && s[j] == '\n' {
                j = j + 1;
            }
            let k = find_field_end(s, j);
            if k >= n {
                return Err(CifError::ParseError(at_line("unterminated multi-line text field", line)));
            }
            let chars = copy_range(s, j, k);
            proof {
                lemma_prepend_step(raw_model(tokens@), (chars@, TokenKind::TextField), scan(s@, k + 2));
            }
            tokens.push(RawToken { chars, line, kind: TokenKind::TextField });
            assert(raw_model(tokens@) =~= raw_model(old_tokens).push((chars@, TokenKind::TextField)));
            proof {
                starts = starts.push(i as int);
                assert(starts + token_starts(s@, k + 2) =~= old_starts + token_starts(s@, i as int));
                lemma_breaks_split(s@, 0, i as int, k + 1);
            }
            let n_breaks = count_lines(s, i, k + 1);
            line = advance_line(line, n_breaks);
            i = k + 2;
        } else if c == '#' {
            let mut k: usize = i;
            while k < n && s[k] != '\n'
                invariant
                    i <= k <= n == s@.len(),
                    comment_end(s@, k as int) == comment_end(s@, i as int),
                    breaks(s@, i as int, k as int) == 0,
                decreases n - k,
            {
                k = k + 1;
            }
            proof {
                lemma_breaks_split(s@, 0, i as int, k as int);
            }
            i = k;
        } else if c == '\'' || c == '"' {
            let k = find_quote_end(s, i + 1, c);
            if k >= n {
                return Err(CifError::ParseError(at_line("unterminated quoted string", line)));
            }
            let chars = copy_range(s, i + 1, k);
            proof {
                lemma_prepend_step(raw_model(tokens@), (chars@, TokenKind::Quoted), scan(s@, k + 1));
            }
            tokens.push(RawToken { chars, line, kind: TokenKind::Quoted });
            assert(raw_model(tokens@) =~= raw_model(old_tokens).push((chars@, TokenKind::Quoted)));
            proof {
                starts = starts.push(i as int);
                assert(starts + token_starts(s@, k + 1) =~= old_starts + token_starts(s@, i as int));
                lemma_breaks_split(s@, 0, i as int, k as int);
            }
            let n_breaks = count_lines(s, i, k);
            line = advance_line(line, n_breaks);
            assert(breaks(s@, 0, k + 1) == breaks(s@, 0, k as int));
            i = k + 1;
        } else {
            let mut k: usize = i;
            while k < n && !is_space_char(s[k])
                invariant
                    i <= k <= n == s@.len(),
                    word_end(s@, k as int) == word_end(s@, i as int),
                    breaks(s@, i as int, k as int) == 0,
                    forall|m: int| i <= m < k ==> !is_space(#[trigger] s@[m]),
                decreases n - k,
            {
                k = k + 1;
            }
            proof {
                lemma_breaks_split(s@, 0, i as int, k as int);
            }
            let chars = copy_range(s, i, k);
            assert(chars@[0] == c);
            assert forall|m: int| 0 <= m < chars@.len() implies !is_space(#[trigger] chars@[m]) by {
                assert(chars@[m] == s@[i + m]);
            }
            proof {
                lemma_prepend_step(raw_model(tokens@), (chars@, TokenKind::Bare), scan(s@, k as int));
            }
            tokens.push(RawToken { chars, line, kind: TokenKind::Bare });
            assert(raw_model(tokens@) =~= raw_model(old_tokens).push((chars@, TokenKind::Bare)));
            proof {
                starts = starts.push(i as int);
                assert(starts + token_starts(s@, k as int) =~= old_starts + token_starts(s@, i as int));
            }
            i = k;
        }
    }
    assert(raw_model(tokens@) + Seq::empty() =~= raw_model(tokens@));
    assert(starts + Seq::<int>::empty() =~= starts);
    Ok(tokens)
}

/// Scan CIF text into tokens, as `scan` says; each token carries the line
/// it starts on. Fails with `ParseError` when a quoted string
/// or a multi-line text field is not closed before the end of the text;
/// text with no `;`, `'` or `"` in it always scans.
pub fn tokenize(text: &str) -> (r: Result<Vec<Token>, CifError>)
    ensures
        r is Err ==> r->Err_0 is ParseError,
        r is Ok ==> forall|t: int| 0 <= t < r->Ok_0@.len() ==> #[trigger] token_ok(
            r->Ok_0@[t].text@,
            r->Ok_0@[t].line,
            r->Ok_0@[t].kind,
        ),
        has_no_delimiters(text@) ==> r is Ok,
        r is Ok <==> scan(text@, 0) is Some,
        r is Ok ==> token_model(r->Ok_0@) == scan(text@, 0)->Some_0,
        r is Ok ==> token_starts(text@, 0).len() == r->Ok_0@.len() && forall|t: int|
            0 <= t < r->Ok_0@.len() ==> (#[trigger] r->Ok_0@[t]).line == line_number(text@, token_starts(text@, 0)[t]),
{
    let cs = chars_of(text);
    match tokenize_chars(cs.as_slice()) {
        Err(e) => Err(e),
        Ok(raw) => {
            let mut out: Vec<Token> = Vec::new();
            let mut t: usize = 0;
            while t < raw.len()
                invariant
                    t <= raw@.len(),
                    out@.len() == t,
                    token_model(out@) == raw_model(raw@).take(t as int),
                    forall|u: int| 0 <= u < t ==> (#[trigger] out@[u]).line == raw@[u].line,
                    forall|u: int| 0 <= u < raw@.len() ==> #[trigger] token_ok(
                        raw@[u].chars@,
                        raw@[u].line,
                        raw@[u].kind,
                    ),
                    forall|u: int| 0 <= u < t ==> #[trigger] token_ok(
                        out@[u].text@,
                        out@[u].line,
                        out@[u].kind,
                    ),
                decreases raw@.len() - t,
            {
                let text = string_of(raw[t].chars.as_slice());
                out.push(Token { text, line: raw[t].line, kind: raw[t].kind });
                assert(token_ok(out@[t as int].text@, out@[t as int].line, out@[t as int].kind));
                assert(token_model(out@) =~= raw_model(raw@).take(t + 1));
                t = t + 1;
            }
            assert(raw_model(raw@).take(raw@.len() as int) =~= raw_model(raw@));
            Ok(out)
        },
    }
}

} // verus!
