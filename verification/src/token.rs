//! Token producers.
//!
//! Each producer recognizes exactly one lexical form at the front of an input
//! text and returns the unconsumed remainder together with the token, or a
//! typed failure. Producers never trim whitespace on their own; the
//! [`trim_start`] and [`compose`] combinators adapt a producer to do so.
//!
//! Every producer's behaviour is pinned by a specification function over the
//! character sequence of its input: the executable function returns exactly
//! what the specification function says, error cases included.

use vstd::prelude::*;

verus! {

/// Failure vocabulary shared by all token producers.
#[derive(Clone, Copy, Debug, PartialEq, Eq, Structural)]
pub enum TokenError {
    /// The window was empty or ended before the token's closing delimiter
    /// was found; more input could complete the token.
    Incomplete,
    /// The window does not begin with this producer's token form.
    Unrecognized,
}

/// Result of one producer: the unconsumed remainder on the left, the token on
/// the right, both borrowed from the input window.
pub type TokenResult<'a, T = &'a str> = Result<(&'a str, T), TokenError>;

/// The characters the producers treat as whitespace: the Unicode
/// `White_Space` set.
pub open spec fn is_ws_char(c: char) -> bool {
    ||| c == ' '
    ||| ('\u{09}' <= c && c <= '\u{0D}')
    ||| c == '\u{85}'
    ||| c == '\u{A0}'
    ||| c == '\u{1680}'
    ||| ('\u{2000}' <= c && c <= '\u{200A}')
    ||| c == '\u{2028}'
    ||| c == '\u{2029}'
    ||| c == '\u{202F}'
    ||| c == '\u{205F}'
    ||| c == '\u{3000}'
}

/// Decides [`is_ws_char`].
pub fn is_ws(c: char) -> (r: bool)
    ensures
        r == is_ws_char(c),
{
    c == ' ' || ('\u{09}' <= c && c <= '\u{0D}') || c == '\u{85}' || c == '\u{A0}'
        || c == '\u{1680}' || ('\u{2000}' <= c && c <= '\u{200A}') || c == '\u{2028}'
        || c == '\u{2029}' || c == '\u{202F}' || c == '\u{205F}' || c == '\u{3000}'
}

/// Length of the maximal whitespace prefix of `s`.
pub open spec fn ws_len(s: Seq<char>) -> int
    decreases s.len(),
{
    if s.len() == 0 || !is_ws_char(s[0]) {
        0
    } else {
        1 + ws_len(s.skip(1))
    }
}

/// Length of the maximal non-whitespace prefix of `s`.
pub open spec fn non_ws_len(s: Seq<char>) -> int
    decreases s.len(),
{
    if s.len() == 0 || is_ws_char(s[0]) {
        0
    } else {
        1 + non_ws_len(s.skip(1))
    }
}

/// `non_ws_len` is exactly the position of the first whitespace character
/// (or the length, if there is none).
pub proof fn lemma_non_ws_len_at(s: Seq<char>, i: int)
    requires
        0 <= i <= s.len(),
        forall|j: int| 0 <= j < i ==> !is_ws_char(s[j]),
        i == s.len() || is_ws_char(s[i]),
    ensures
        non_ws_len(s) == i,
    decreases i,
{
    if i == 0 {
    } else {
        assert(!is_ws_char(s[0]));
        assert forall|j: int| 0 <= j < i - 1 implies !is_ws_char(s.skip(1)[j]) by {
            assert(s.skip(1)[j] == s[j + 1]);
        }
        if i < s.len() {
            assert(s.skip(1)[i - 1] == s[i]);
        }
        lemma_non_ws_len_at(s.skip(1), i - 1);
    }
}

/// Mirror of [`lemma_non_ws_len_at`] for the whitespace prefix.
pub proof fn lemma_ws_len_at(s: Seq<char>, i: int)
    requires
        0 <= i <= s.len(),
        forall|j: int| 0 <= j < i ==> is_ws_char(s[j]),
        i == s.len() || !is_ws_char(s[i]),
    ensures
        ws_len(s) == i,
    decreases i,
{
    if i == 0 {
    } else {
        assert(is_ws_char(s[0]));
        assert forall|j: int| 0 <= j < i - 1 implies is_ws_char(s.skip(1)[j]) by {
            assert(s.skip(1)[j] == s[j + 1]);
        }
        if i < s.len() {
            assert(s.skip(1)[i - 1] == s[i]);
        }
        lemma_ws_len_at(s.skip(1), i - 1);
    }
}

/// Position of the first whitespace character of `text`, or its length.
fn scan_non_ws(text: &str) -> (n: usize)
    ensures
        n == non_ws_len(text@),
{
    let len = text.unicode_len();
    let mut i: usize = 0;
    while i < len && !is_ws(text.get_char(i))
        invariant
            0 <= i <= len,
            len == text@.len(),
            forall|j: int| 0 <= j < i ==> !is_ws_char(text@[j]),
        decreases len - i,
    {
        i = i + 1;
    }
    proof {
        lemma_non_ws_len_at(text@, i as int);
    }
    i
}

/// Position of the first non-whitespace character of `text`, or its length.
fn scan_ws(text: &str) -> (n: usize)
    ensures
        n == ws_len(text@),
{
    let len = text.unicode_len();
    let mut i: usize = 0;
    while i < len && is_ws(text.get_char(i))
        invariant
            0 <= i <= len,
            len == text@.len(),
            forall|j: int| 0 <= j < i ==> is_ws_char(text@[j]),
        decreases len - i,
    {
        i = i + 1;
    }
    proof {
        lemma_ws_len_at(text@, i as int);
    }
    i
}

/// What [`word`] consumes from `s`: the maximal run of non-whitespace
/// characters, which must be non-empty.
pub open spec fn word_consumed(s: Seq<char>) -> Result<int, TokenError> {
    if s.len() == 0 {
        Err(TokenError::Incomplete)
    } else if is_ws_char(s[0]) {
        Err(TokenError::Unrecognized)
    } else {
        Ok(non_ws_len(s))
    }
}

/// The remainder and token [`word`] returns on `s`.
pub open spec fn word_spec(s: Seq<char>) -> Result<(Seq<char>, Seq<char>), TokenError> {
    match word_consumed(s) {
        Ok(n) => Ok((s.skip(n), s.take(n))),
        Err(e) => Err(e),
    }
}

/// A producer's result, seen at the specification level.
pub open spec fn result_view<'a>(r: TokenResult<'a>) -> Result<
    (Seq<char>, Seq<char>),
    TokenError,
> {
    match r {
        Ok((rem, tok)) => Ok((rem@, tok@)),
        Err(e) => Err(e),
    }
}

/// Finds a bare word: the maximal run of non-whitespace characters.
///
/// The token runs to the first whitespace character or to the end of the
/// window; reaching the end of the window is a valid end of word. Fails with
/// `Incomplete` only on an empty window, and with `Unrecognized` when the
/// window starts with whitespace.
pub fn word<'a>(text: &'a str) -> (res: TokenResult<'a>)
    ensures
        result_view(res) == word_spec(text@),
{
    let len = text.unicode_len();
    if len == 0 {
        return Err(TokenError::Incomplete);
    }
    if is_ws(text.get_char(0)) {
        return Err(TokenError::Unrecognized);
    }
    let n = scan_non_ws(text);
    proof {
        lemma_non_ws_len_bounds(text@);
    }
    Ok((text.substring_char(n, len), text.substring_char(0, n)))
}

/// `non_ws_len` never exceeds the sequence's length, and `ws_len` likewise.
pub proof fn lemma_non_ws_len_bounds(s: Seq<char>)
    ensures
        0 <= non_ws_len(s) <= s.len(),
        0 <= ws_len(s) <= s.len(),
    decreases s.len(),
{
    if s.len() > 0 {
        lemma_non_ws_len_bounds(s.skip(1));
    }
}

/// Index of the first occurrence of `c` in `s`, if any.
pub open spec fn find_char(s: Seq<char>, c: char) -> Option<int>
    decreases s.len(),
{
    if s.len() == 0 {
        None
    } else if s[0] == c {
        Some(0int)
    } else {
        match find_char(s.skip(1), c) {
            None => None,
            Some(i) => Some(1 + i),
        }
    }
}

/// `find_char` returns exactly the position of the first occurrence.
pub proof fn lemma_find_char_at(s: Seq<char>, c: char, i: int)
    requires
        0 <= i < s.len(),
        s[i] == c,
        forall|j: int| 0 <= j < i ==> s[j] != c,
    ensures
        find_char(s, c) == Some(i),
    decreases i,
{
    if i > 0 {
        assert forall|j: int| 0 <= j < i - 1 implies s.skip(1)[j] != c by {
            assert(s.skip(1)[j] == s[j + 1]);
        }
        assert(s.skip(1)[i - 1] == s[i]);
        lemma_find_char_at(s.skip(1), c, i - 1);
    }
}

/// `find_char` fails exactly when `c` does not occur.
pub proof fn lemma_find_char_none(s: Seq<char>, c: char)
    requires
        forall|j: int| 0 <= j < s.len() ==> s[j] != c,
    ensures
        find_char(s, c) is None,
    decreases s.len(),
{
    if s.len() > 0 {
        assert forall|j: int| 0 <= j < s.len() - 1 implies s.skip(1)[j] != c by {
            assert(s.skip(1)[j] == s[j + 1]);
        }
        lemma_find_char_none(s.skip(1), c);
    }
}

/// What [`squote`] consumes from `s`: an opening quote, the run up to the
/// next quote, and that closing quote.
pub open spec fn squote_consumed(s: Seq<char>) -> Result<int, TokenError> {
    if s.len() == 0 {
        Err(TokenError::Incomplete)
    } else if s[0] != '\'' {
        Err(TokenError::Unrecognized)
    } else {
        match find_char(s.skip(1), '\'') {
            None => Err(TokenError::Incomplete),
            Some(i) => Ok(i + 2),
        }
    }
}

/// The remainder and token [`squote`] returns on `s`: the token is the text
/// strictly between the two quote characters.
pub open spec fn squote_spec(s: Seq<char>) -> Result<(Seq<char>, Seq<char>), TokenError> {
    match squote_consumed(s) {
        Ok(c) => Ok((s.skip(c), s.subrange(1, c - 1))),
        Err(e) => Err(e),
    }
}

/// A fast-forward step over a nested span, kept inside `[1, n]` so that the
/// scan always advances; the bounds lemmas show the clip never takes effect.
pub open spec fn clip_step(c: int, n: int) -> int {
    if c < 1 {
        1
    } else if c > n {
        n
    } else {
        c
    }
}

/// What [`shell_meta`] consumes from `s`: a `$` followed by a balanced
/// parenthesized or braced span, or by a bare word.
pub open spec fn meta_consumed(s: Seq<char>) -> Result<int, TokenError>
    decreases s.len(), 1int,
{
    if s.len() == 0 {
        Err(TokenError::Incomplete)
    } else if s[0] != '$' {
        Err(TokenError::Unrecognized)
    } else if s.len() == 1 {
        Err(TokenError::Incomplete)
    } else if s[1] == '(' {
        match bracket_consumed(s.skip(2), ')') {
            Ok(i) => Ok(i + 3),
            Err(e) => Err(e),
        }
    } else if s[1] == '{' {
        match bracket_consumed(s.skip(2), '}') {
            Ok(i) => Ok(i + 3),
            Err(e) => Err(e),
        }
    } else {
        match word_consumed(s.skip(1)) {
            Ok(n) => Ok(1 + n),
            Err(e) => Err(e),
        }
    }
}

/// Position of the closing bracket in `rem`, skipping whole nested
/// double-quoted, single-quoted, and meta spans, so that brackets and quotes
/// inside a nested span cannot close the sequence.
pub open spec fn bracket_consumed(rem: Seq<char>, close: char) -> Result<int, TokenError>
    decreases rem.len(), 3int,
{
    if rem.len() == 0 {
        Err(TokenError::Incomplete)
    } else if dquote_consumed(rem) is Ok {
        let step = clip_step(dquote_consumed(rem)->Ok_0, rem.len() as int);
        match bracket_consumed(rem.skip(step), close) {
            Ok(i) => Ok(step + i),
            Err(e) => Err(e),
        }
    } else if squote_consumed(rem) is Ok {
        let step = clip_step(squote_consumed(rem)->Ok_0, rem.len() as int);
        match bracket_consumed(rem.skip(step), close) {
            Ok(i) => Ok(step + i),
            Err(e) => Err(e),
        }
    } else if meta_consumed(rem) is Ok {
        let step = clip_step(meta_consumed(rem)->Ok_0, rem.len() as int);
        match bracket_consumed(rem.skip(step), close) {
            Ok(i) => Ok(step + i),
            Err(e) => Err(e),
        }
    } else if rem[0] == close {
        Ok(0)
    } else {
        match bracket_consumed(rem.skip(1), close) {
            Ok(i) => Ok(1 + i),
            Err(e) => Err(e),
        }
    }
}

/// What [`dquote`] consumes from `s`: an opening quote, the body scanned by
/// [`dq_body_consumed`], and the closing quote.
pub open spec fn dquote_consumed(s: Seq<char>) -> Result<int, TokenError>
    decreases s.len(), 1int,
{
    if ws_len(s) == s.len() {
        Err(TokenError::Incomplete)
    } else if s[0] != '"' {
        Err(TokenError::Unrecognized)
    } else {
        match dq_body_consumed(s.skip(1)) {
            Ok(n) => Ok(n + 2),
            Err(e) => Err(e),
        }
    }
}

/// Position of the closing `"` in a double-quote body: a backslash skips the
/// next character, a `$` hands off to the meta producer and jumps past its
/// whole token, and every other character is inert.
pub open spec fn dq_body_consumed(t: Seq<char>) -> Result<int, TokenError>
    decreases t.len(), 2int,
{
    if t.len() == 0 {
        Err(TokenError::Incomplete)
    } else if t[0] == '"' {
        Ok(0)
    } else if t[0] == '\\' {
        if t.len() == 1 {
            Err(TokenError::Incomplete)
        } else {
            match dq_body_consumed(t.skip(2)) {
                Ok(n) => Ok(n + 2),
                Err(e) => Err(e),
            }
        }
    } else if t[0] == '$' {
        match meta_consumed(t) {
            Ok(c) => {
                let step = clip_step(c, t.len() as int);
                match dq_body_consumed(t.skip(step)) {
                    Ok(n) => Ok(n + step),
                    Err(e) => Err(e),
                }
            },
            Err(e) => Err(e),
        }
    } else {
        match dq_body_consumed(t.skip(1)) {
            Ok(n) => Ok(n + 1),
            Err(e) => Err(e),
        }
    }
}

/// The remainder and token [`shell_meta`] returns on `s`: the token excludes
/// the leading `$` but keeps the enclosing punctuation of a bracketed form.
pub open spec fn meta_spec(s: Seq<char>) -> Result<(Seq<char>, Seq<char>), TokenError> {
    match meta_consumed(s) {
        Ok(c) => Ok((s.skip(c), s.subrange(1, c))),
        Err(e) => Err(e),
    }
}

/// The remainder and token [`dquote`] returns on `s`: the token is the body
/// strictly between the two quote characters, verbatim.
pub open spec fn dquote_spec(s: Seq<char>) -> Result<(Seq<char>, Seq<char>), TokenError> {
    match dquote_consumed(s) {
        Ok(c) => Ok((s.skip(c), s.subrange(1, c - 1))),
        Err(e) => Err(e),
    }
}

/// A successful single-quote scan starts and ends on a quote character and
/// consumes at least the two quotes.
pub proof fn lemma_squote_bounds(s: Seq<char>)
    ensures
        squote_consumed(s) matches Ok(c) ==> 2 <= c <= s.len() && s[0] == '\'' && s[c - 1] == '\'',
{
    if squote_consumed(s) is Ok {
        let i = find_char(s.skip(1), '\'')->Some_0;
        lemma_find_char_props(s.skip(1), '\'');
        assert(s.skip(1)[i] == s[i + 1]);
    }
}

/// A successful `find_char` points at the character sought.
pub proof fn lemma_find_char_props(s: Seq<char>, c: char)
    ensures
        find_char(s, c) matches Some(i) ==> 0 <= i < s.len() && s[i] == c,
    decreases s.len(),
{
    if s.len() > 0 && s[0] != c {
        lemma_find_char_props(s.skip(1), c);
        if find_char(s.skip(1), c) is Some {
            let i = find_char(s.skip(1), c)->Some_0;
            assert(s.skip(1)[i] == s[i + 1]);
        }
    }
}

/// A successful meta scan consumes at least the `$` and one more character.
pub proof fn lemma_meta_bounds(s: Seq<char>)
    ensures
        meta_consumed(s) matches Ok(c) ==> 2 <= c <= s.len(),
    decreases s.len(), 1int,
{
    if s.len() >= 2 && s[0] == '$' {
        if s[1] == '(' {
            lemma_bracket_bounds(s.skip(2), ')');
        } else if s[1] == '{' {
            lemma_bracket_bounds(s.skip(2), '}');
        } else {
            lemma_non_ws_len_bounds(s.skip(1));
            lemma_non_ws_len_bounds(s.skip(1).skip(1));
        }
    }
}

/// A successful bracket scan stops exactly on the closing character, at a
/// position inside the window.
pub proof fn lemma_bracket_bounds(rem: Seq<char>, close: char)
    ensures
        bracket_consumed(rem, close) matches Ok(i) ==> 0 <= i < rem.len() && rem[i] == close,
    decreases rem.len(), 3int,
{
    if rem.len() > 0 {
        if dquote_consumed(rem) is Ok {
            lemma_dquote_bounds(rem);
            let step = clip_step(dquote_consumed(rem)->Ok_0, rem.len() as int);
            lemma_bracket_bounds(rem.skip(step), close);
            if bracket_consumed(rem.skip(step), close) is Ok {
                let i = bracket_consumed(rem.skip(step), close)->Ok_0;
                assert(rem.skip(step)[i] == rem[step + i]);
            }
        } else if squote_consumed(rem) is Ok {
            lemma_squote_bounds(rem);
            let step = clip_step(squote_consumed(rem)->Ok_0, rem.len() as int);
            lemma_bracket_bounds(rem.skip(step), close);
            if bracket_consumed(rem.skip(step), close) is Ok {
                let i = bracket_consumed(rem.skip(step), close)->Ok_0;
                assert(rem.skip(step)[i] == rem[step + i]);
            }
        } else if meta_consumed(rem) is Ok {
            lemma_meta_bounds(rem);
            let step = clip_step(meta_consumed(rem)->Ok_0, rem.len() as int);
            lemma_bracket_bounds(rem.skip(step), close);
            if bracket_consumed(rem.skip(step), close) is Ok {
                let i = bracket_consumed(rem.skip(step), close)->Ok_0;
                assert(rem.skip(step)[i] == rem[step + i]);
            }
        } else if rem[0] == close {
        } else {
            lemma_bracket_bounds(rem.skip(1), close);
            if bracket_consumed(rem.skip(1), close) is Ok {
                let i = bracket_consumed(rem.skip(1), close)->Ok_0;
                assert(rem.skip(1)[i] == rem[1 + i]);
            }
        }
    }
}

/// A successful double-quote scan starts and ends on a quote character and
/// consumes at least the two quotes.
pub proof fn lemma_dquote_bounds(s: Seq<char>)
    ensures
        dquote_consumed(s) matches Ok(c) ==> 2 <= c <= s.len() && s[0] == '"' && s[c - 1] == '"',
    decreases s.len(), 1int,
{
    if !(ws_len(s) == s.len()) && s.len() > 0 && s[0] == '"' {
        lemma_dq_body_bounds(s.skip(1));
        if dq_body_consumed(s.skip(1)) is Ok {
            let n = dq_body_consumed(s.skip(1))->Ok_0;
            assert(s.skip(1)[n] == s[n + 1]);
        }
    }
    lemma_non_ws_len_bounds(s);
}

/// A successful double-quote body scan stops exactly on a closing quote
/// inside the window.
pub proof fn lemma_dq_body_bounds(t: Seq<char>)
    ensures
        dq_body_consumed(t) matches Ok(n) ==> 0 <= n < t.len() && t[n] == '"',
    decreases t.len(), 2int,
{
    if t.len() > 0 && t[0] != '"' {
        if t[0] == '\\' {
            if t.len() > 1 {
                lemma_dq_body_bounds(t.skip(2));
                if dq_body_consumed(t.skip(2)) is Ok {
                    let n = dq_body_consumed(t.skip(2))->Ok_0;
                    assert(t.skip(2)[n] == t[n + 2]);
                }
            }
        } else if t[0] == '$' {
            lemma_meta_bounds(t);
            if meta_consumed(t) is Ok {
                let step = clip_step(meta_consumed(t)->Ok_0, t.len() as int);
                lemma_dq_body_bounds(t.skip(step));
                if dq_body_consumed(t.skip(step)) is Ok {
                    let n = dq_body_consumed(t.skip(step))->Ok_0;
                    assert(t.skip(step)[n] == t[n + step]);
                }
            }
        } else {
            lemma_dq_body_bounds(t.skip(1));
            if dq_body_consumed(t.skip(1)) is Ok {
                let n = dq_body_consumed(t.skip(1))->Ok_0;
                assert(t.skip(1)[n] == t[n + 1]);
            }
        }
    }
}

/// Finds a single-quote-delimited string.
///
/// The text must begin with `'`; the token is everything up to the next `'`,
/// with no escape interpretation — a backslash has no special meaning here.
/// The remainder starts immediately after the closing quote. Fails as
/// `Incomplete` when no closing quote is found.
pub fn squote<'a>(text: &'a str) -> (res: TokenResult<'a>)
    ensures
        result_view(res) == squote_spec(text@),
{
    let len = text.unicode_len();
    if len == 0 {
        return Err(TokenError::Incomplete);
    }
    if text.get_char(0) != '\'' {
        return Err(TokenError::Unrecognized);
    }
    let mut i: usize = 1;
    while i < len && text.get_char(i) != '\''
        invariant
            1 <= i <= len,
            len == text@.len(),
            forall|j: int| 1 <= j < i ==> text@[j] != '\'',
        decreases len - i,
    {
        i = i + 1;
    }
    proof {
        let body = text@.skip(1);
        assert forall|j: int| 0 <= j < i - 1 implies body[j] != '\'' by {
            assert(body[j] == text@[j + 1]);
        }
        if i == len {
            lemma_find_char_none(body, '\'');
        } else {
            assert(body[i - 1] == text@[i as int]);
            lemma_find_char_at(body, '\'', i - 1);
        }
    }
    if i == len {
        return Err(TokenError::Incomplete);
    }
    Ok((text.substring_char(i + 1, len), text.substring_char(1, i)))
}

/// Scans a double-quote body for the closing quote; returns its position.
fn dq_body(t: &str) -> (res: Result<usize, TokenError>)
    ensures
        match res {
            Ok(n) => dq_body_consumed(t@) == Ok::<int, TokenError>(n as int),
            Err(e) => dq_body_consumed(t@) == Err::<int, TokenError>(e),
        },
    decreases t@.len(), 2int,
{
    let len = t.unicode_len();
    if len == 0 {
        return Err(TokenError::Incomplete);
    }
    let c0 = t.get_char(0);
    if c0 == '"' {
        return Ok(0);
    }
    if c0 == '\\' {
        if len == 1 {
            return Err(TokenError::Incomplete);
        }
        return match dq_body(t.substring_char(2, len)) {
            Ok(n) => {
                proof {
                    lemma_dq_body_bounds(t@.skip(2));
                }
                Ok(n + 2)
            },
            Err(e) => Err(e),
        };
    }
    if c0 == '$' {
        match shell_meta(t) {
            Ok((_, tok)) => {
                proof {
                    lemma_meta_bounds(t@);
                }
                let step = tok.unicode_len() + 1;
                proof {
                    assert(meta_consumed(t@) is Ok);
                    let c = meta_consumed(t@)->Ok_0;
                    assert(tok@ == t@.subrange(1, c));
                    assert(step == c);
                    assert(clip_step(c, t@.len() as int) == c);
                }
                match dq_body(t.substring_char(step, len)) {
                    Ok(n) => {
                        proof {
                            lemma_dq_body_bounds(t@.skip(step as int));
                        }
                        Ok(n + step)
                    },
                    Err(e) => Err(e),
                }
            },
            Err(e) => Err(e),
        }
    } else {
        match dq_body(t.substring_char(1, len)) {
            Ok(n) => {
                proof {
                    lemma_dq_body_bounds(t@.skip(1));
                }
                Ok(n + 1)
            },
            Err(e) => Err(e),
        }
    }
}

/// Scans a bracketed meta body for the closing character; returns its
/// position. Whole nested double-quoted, single-quoted, and meta spans are
/// jumped over, so their contents cannot close the sequence.
fn bracket_scan(rem: &str, close: char) -> (res: Result<usize, TokenError>)
    ensures
        match res {
            Ok(i) => bracket_consumed(rem@, close) == Ok::<int, TokenError>(i as int),
            Err(e) => bracket_consumed(rem@, close) == Err::<int, TokenError>(e),
        },
    decreases rem@.len(), 3int,
{
    let len = rem.unicode_len();
    if len == 0 {
        return Err(TokenError::Incomplete);
    }
    let step: usize = match dquote(rem) {
        Ok((r2, _)) => {
            proof {
                lemma_dquote_bounds(rem@);
            }
            let c = len - r2.unicode_len();
            proof {
                assert(clip_step(dquote_consumed(rem@)->Ok_0, rem@.len() as int) == c);
            }
            c
        },
        Err(_) => {
            match squote(rem) {
                Ok((r2, _)) => {
                    proof {
                        lemma_squote_bounds(rem@);
                    }
                    let c = len - r2.unicode_len();
                    proof {
                        assert(clip_step(squote_consumed(rem@)->Ok_0, rem@.len() as int) == c);
                    }
                    c
                },
                Err(_) => {
                    match shell_meta(rem) {
                        Ok((r2, _)) => {
                            proof {
                                lemma_meta_bounds(rem@);
                            }
                            let c = len - r2.unicode_len();
                            proof {
                                assert(clip_step(meta_consumed(rem@)->Ok_0, rem@.len() as int)
                                    == c);
                            }
                            c
                        },
                        Err(_) => {
                            if rem.get_char(0) == close {
                                return Ok(0);
                            }
                            match bracket_scan(rem.substring_char(1, len), close) {
                                Ok(i) => {
                                    proof {
                                        lemma_bracket_bounds(rem@.skip(1), close);
                                    }
                                    return Ok(1 + i);
                                },
                                Err(e) => {
                                    return Err(e);
                                },
                            }
                        },
                    }
                },
            }
        },
    };
    match bracket_scan(rem.substring_char(step, len), close) {
        Ok(i) => {
            proof {
                lemma_bracket_bounds(rem@.skip(step as int), close);
            }
            Ok(step + i)
        },
        Err(e) => Err(e),
    }
}

/// Finds a double-quote-delimited string.
///
/// The text must begin with `"`. A backslash skips the next character, both
/// kept verbatim in the token; a `$` hands off to [`shell_meta`], whose whole
/// token is skipped, so quotes inside a nested meta span do not end the
/// string. The token is the body strictly between the quotes; the remainder
/// starts after the closing quote. A blank window and an unterminated body
/// fail as `Incomplete`; a window that starts with any other character fails
/// as `Unrecognized`, and a failure of the nested meta producer is passed on.
pub fn dquote<'a>(text: &'a str) -> (res: TokenResult<'a>)
    ensures
        result_view(res) == dquote_spec(text@),
    decreases text@.len(), 1int,
{
    let len = text.unicode_len();
    let ws = scan_ws(text);
    if ws == len {
        proof {
            lemma_non_ws_len_bounds(text@);
        }
        return Err(TokenError::Incomplete);
    }
    proof {
        lemma_non_ws_len_bounds(text@);
    }
    if text.get_char(0) != '"' {
        return Err(TokenError::Unrecognized);
    }
    match dq_body(text.substring_char(1, len)) {
        Ok(n) => {
            proof {
                lemma_dq_body_bounds(text@.skip(1));
            }
            Ok((text.substring_char(n + 2, len), text.substring_char(1, n + 1)))
        },
        Err(e) => Err(e),
    }
}

/// Finds a shell meta-sequence: `$(...)` balanced on parentheses, `${...}`
/// balanced on braces, or `$word`.
///
/// The token excludes the `$` but keeps the enclosing punctuation of a
/// bracketed form, so nested structure stays visible to a consumer that
/// re-scans it. Inside a bracketed form, nested double-quoted, single-quoted,
/// and meta spans are skipped whole: only a closing bracket outside every
/// nested span ends the sequence. Fails as `Incomplete` when nothing follows
/// the `$` or no closing bracket is found.
pub fn shell_meta<'a>(text: &'a str) -> (res: TokenResult<'a>)
    ensures
        result_view(res) == meta_spec(text@),
    decreases text@.len(), 1int,
{
    let len = text.unicode_len();
    if len == 0 {
        return Err(TokenError::Incomplete);
    }
    if text.get_char(0) != '$' {
        return Err(TokenError::Unrecognized);
    }
    if len == 1 {
        return Err(TokenError::Incomplete);
    }
    let c1 = text.get_char(1);
    if c1 == '(' || c1 == '{' {
        let close: char = if c1 == '(' {
            ')'
        } else {
            '}'
        };
        match bracket_scan(text.substring_char(2, len), close) {
            Ok(i) => {
                proof {
                    lemma_bracket_bounds(text@.skip(2), close);
                }
                Ok((text.substring_char(i + 3, len), text.substring_char(1, i + 3)))
            },
            Err(e) => Err(e),
        }
    } else {
        let res = word(text.substring_char(1, len));
        proof {
            let s = text@;
            if word_consumed(s.skip(1)) is Ok {
                let n = word_consumed(s.skip(1))->Ok_0;
                lemma_non_ws_len_bounds(s.skip(1));
                assert(s.skip(1).skip(n) =~= s.skip(1 + n));
                assert(s.skip(1).take(n) =~= s.subrange(1, 1 + n));
            }
        }
        res
    }
}

/// The remainder and token [`atom`] returns on `s`: the first of the
/// double-quote, single-quote, and word producers to succeed. A shell
/// meta-sequence is deliberately not a first-class alternative here: it is
/// reachable only through double-quote nesting, so a bare `$...` is consumed
/// as an ordinary word. An alternative that fails as `Incomplete` ends the
/// search at once; one that fails as `Unrecognized` passes the text on to
/// the next alternative.
pub open spec fn atom_spec(s: Seq<char>) -> Result<(Seq<char>, Seq<char>), TokenError> {
    match dquote_consumed(s) {
        Ok(_) => dquote_spec(s),
        Err(TokenError::Incomplete) => Err(TokenError::Incomplete),
        Err(TokenError::Unrecognized) => match squote_consumed(s) {
            Ok(_) => squote_spec(s),
            Err(TokenError::Incomplete) => Err(TokenError::Incomplete),
            Err(TokenError::Unrecognized) => word_spec(s),
        },
    }
}

/// Finds any token element: a double-quoted string, a single-quoted string,
/// or a bare word, the quoted forms tried first.
///
/// The result is the unmodified result of the first producer to succeed; the
/// quoted producers do not return the quotes. A shell meta-sequence is not
/// an alternative at this level, only inside a double-quoted body, so an
/// unquoted `$...` is taken verbatim as a word.
pub fn atom<'a>(text: &'a str) -> (res: TokenResult<'a>)
    ensures
        result_view(res) == atom_spec(text@),
{
    match dquote(text) {
        Ok(r) => Ok(r),
        Err(TokenError::Incomplete) => Err(TokenError::Incomplete),
        Err(TokenError::Unrecognized) => match squote(text) {
            Ok(r) => Ok(r),
            Err(TokenError::Incomplete) => Err(TokenError::Incomplete),
            Err(TokenError::Unrecognized) => word(text),
        },
    }
}

/// A key/value producer's result, seen at the specification level.
pub open spec fn keyval_result_view<'a>(r: TokenResult<'a, (&'a str, &'a str)>) -> Result<
    (Seq<char>, (Seq<char>, Seq<char>)),
    TokenError,
> {
    match r {
        Ok((rem, (k, v))) => Ok((rem@, (k@, v@))),
        Err(e) => Err(e),
    }
}

/// The remainder, key, and value [`keyval`] returns on `s`: the text before
/// the first `=` must be one whole bare word, and the value is whatever
/// [`atom_spec`] recognizes after the `=`.
pub open spec fn keyval_spec(s: Seq<char>) -> Result<
    (Seq<char>, (Seq<char>, Seq<char>)),
    TokenError,
> {
    match find_char(s, '=') {
        None => Err(TokenError::Incomplete),
        Some(e) => {
            if e == 0 {
                Err(TokenError::Unrecognized)
            } else {
                let t = s.take(e);
                match word_consumed(t) {
                    Err(err) => Err(err),
                    Ok(w) => {
                        if w != e {
                            Err(TokenError::Unrecognized)
                        } else {
                            match atom_spec(s.skip(e + 1)) {
                                Ok((rem, val)) => Ok((rem, (t, val))),
                                Err(err) => Err(err),
                            }
                        }
                    },
                }
            }
        },
    }
}

/// Finds a `key=value` sequence and splits it into the key and the value.
///
/// The key is the whole text before the first `=` and must be a single bare
/// word: any whitespace there means the `=` belongs to a later token, and the
/// producer fails as `Unrecognized`. The value is any atom. Fails as
/// `Incomplete` when the window holds no `=` at all.
pub fn keyval<'a>(text: &'a str) -> (res: TokenResult<'a, (&'a str, &'a str)>)
    ensures
        keyval_result_view(res) == keyval_spec(text@),
{
    let len = text.unicode_len();
    let mut e: usize = 0;
    while e < len && text.get_char(e) != '='
        invariant
            0 <= e <= len,
            len == text@.len(),
            forall|j: int| 0 <= j < e ==> text@[j] != '=',
        decreases len - e,
    {
        e = e + 1;
    }
    if e == len {
        proof {
            lemma_find_char_none(text@, '=');
        }
        return Err(TokenError::Incomplete);
    }
    proof {
        lemma_find_char_at(text@, '=', e as int);
    }
    if e == 0 {
        return Err(TokenError::Unrecognized);
    }
    let t = text.substring_char(0, e);
    match word(t) {
        Err(err) => Err(err),
        Ok((_, w)) => {
            let wl = w.unicode_len();
            proof {
                lemma_non_ws_len_bounds(t@);
                if non_ws_len(t@) == e {
                    assert(t@.take(e as int) =~= t@);
                }
            }
            if wl != e {
                Err(TokenError::Unrecognized)
            } else {
                match atom(text.substring_char(e + 1, len)) {
                    Ok((rem, val)) => Ok((rem, (w, val))),
                    Err(err) => Err(err),
                }
            }
        },
    }
}

/// A successful atom always consumes at least one character: its remainder
/// is strictly shorter than its input.
pub proof fn lemma_atom_remainder(s: Seq<char>)
    ensures
        atom_spec(s) matches Ok(p) ==> p.0.len() < s.len(),
{
    lemma_dquote_bounds(s);
    lemma_squote_bounds(s);
    lemma_non_ws_len_bounds(s);
    if s.len() > 0 {
        lemma_non_ws_len_bounds(s.skip(1));
    }
}

/// A successful key/value pair always consumes at least the key and the
/// equals sign: its remainder is strictly shorter than its input.
pub proof fn lemma_keyval_remainder(s: Seq<char>)
    ensures
        keyval_spec(s) matches Ok(p) ==> p.0.len() < s.len(),
{
    if keyval_spec(s) is Ok {
        lemma_find_char_props(s, '=');
        let e = find_char(s, '=')->Some_0;
        lemma_atom_remainder(s.skip(e + 1));
    }
}

/// Law: producers only consume from the front. Whenever a producer
/// succeeds, the remainder it returns is exactly a suffix of its input.
pub proof fn lemma_remainder_is_suffix(s: Seq<char>)
    ensures
        word_spec(s) matches Ok(p) ==> p.0 == s.skip(s.len() - p.0.len()),
        squote_spec(s) matches Ok(p) ==> p.0 == s.skip(s.len() - p.0.len()),
        dquote_spec(s) matches Ok(p) ==> p.0 == s.skip(s.len() - p.0.len()),
        meta_spec(s) matches Ok(p) ==> p.0 == s.skip(s.len() - p.0.len()),
        atom_spec(s) matches Ok(p) ==> p.0 == s.skip(s.len() - p.0.len()),
{
    lemma_non_ws_len_bounds(s);
    lemma_squote_bounds(s);
    lemma_dquote_bounds(s);
    lemma_meta_bounds(s);
}

/// Law: on well-formed single-quoted text whose body contains no quote
/// character, the producer returns exactly the body as the token and exactly
/// the text after the closing quote as the remainder.
pub proof fn lemma_squote_well_formed(s: Seq<char>, rest: Seq<char>)
    requires
        forall|j: int| 0 <= j < s.len() ==> s[j] != '\'',
    ensures
        squote_spec(seq!['\''] + s + seq!['\''] + rest) == Ok::<(Seq<char>, Seq<char>),
            TokenError,
        >((rest, s)),
{
    let full = seq!['\''] + s + seq!['\''] + rest;
    let body = full.skip(1);
    assert(full[0] == '\'');
    assert forall|j: int| 0 <= j < s.len() implies body[j] != '\'' by {
        assert(body[j] == s[j]);
    }
    assert(body[s.len() as int] == '\'');
    lemma_find_char_at(body, '\'', s.len() as int);
    let c = s.len() + 2;
    assert(full.subrange(1, c - 1) =~= s);
    assert(full.skip(c as int) =~= rest);
}

/// Law: whenever the double-quote producer succeeds, the input is exactly an
/// opening quote, the token verbatim (no escape substitution), the closing
/// quote the scan stopped on, and the remainder.
pub proof fn lemma_dquote_verbatim(s: Seq<char>)
    ensures
        dquote_spec(s) matches Ok((rem, tok)) ==> s =~= seq!['"'] + tok + seq!['"'] + rem,
{
    lemma_dquote_bounds(s);
    if dquote_spec(s) is Ok {
        let c = dquote_consumed(s)->Ok_0;
        let tok = s.subrange(1, c - 1);
        let rem = s.skip(c);
        assert forall|j: int| 0 <= j < s.len() implies (seq!['"'] + tok + seq!['"'] + rem)[j]
            == s[j] by {
            if j == 0 {
            } else if j < c - 1 {
                assert((seq!['"'] + tok + seq!['"'] + rem)[j] == tok[j - 1]);
            } else if j == c - 1 {
                assert(s[c - 1] == '"');
            } else {
                assert((seq!['"'] + tok + seq!['"'] + rem)[j] == rem[j - c]);
            }
        }
    }
}

/// Returns `text` without its leading whitespace.
pub fn trimmed<'a>(text: &'a str) -> (r: &'a str)
    ensures
        r@ == text@.skip(ws_len(text@)),
{
    let len = text.unicode_len();
    let ws = scan_ws(text);
    proof {
        lemma_non_ws_len_bounds(text@);
    }
    text.substring_char(ws, len)
}

/// Composes an input transformer with a tokenizer: the transformer runs on
/// the input, and the tokenizer on the transformed text. The result is
/// whatever the tokenizer returns on some output the transformer may produce
/// for this input.
pub fn compose<'a, T, F: Fn(&'a str) -> &'a str, G: Fn(&'a str) -> TokenResult<'a, T>>(
    modifier: F,
    tokenizer: G,
    input: &'a str,
) -> (res: TokenResult<'a, T>)
    requires
        call_requires(modifier, (input,)),
        forall|m: &'a str| call_ensures(modifier, (input,), m) ==> call_requires(
            tokenizer,
            (m,),
        ),
    ensures
        exists|m: &'a str|
            call_ensures(modifier, (input,), m) && call_ensures(tokenizer, (m,), res),
{
    tokenizer(modifier(input))
}

/// Runs a tokenizer on the input with its leading whitespace removed.
pub fn trim_start<'a, T, G: Fn(&'a str) -> TokenResult<'a, T>>(tokenizer: G, text: &'a str) -> (res:
    TokenResult<'a, T>)
    requires
        forall|m: &'a str| m@ == text@.skip(ws_len(text@)) ==> call_requires(tokenizer, (m,)),
    ensures
        exists|m: &'a str|
            m@ == text@.skip(ws_len(text@)) && call_ensures(tokenizer, (m,), res),
{
    compose(trimmed, tokenizer, text)
}

} // verus!

