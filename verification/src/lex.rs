//! The tokenizer: text in, token sequence out.
//!
//! `lex_spec` is the mathematical tokenizer over a `Seq<char>`; the
//! executable `lex` is proved to return exactly what `lex_spec` says on
//! every input.  At each position the first matching rule wins: a
//! structural character, a string literal, one of the keywords `true`,
//! `false`, `null`, a whitespace character (discarded), or a numeric
//! primitive; anything else is an invalid character.
//!
//! Escape sequences inside string literals are validated and then
//! retained as written (the backslash is kept, the sequence is not
//! decoded to the character it denotes).  An input that ends inside an
//! unterminated string literal is treated as holding an invalid string
//! character at the end of input.

use vstd::prelude::*;
use vstd::seq_lib::lemma_seq_skip_of_skip;
use vstd::string::StrSliceExecFns;
use crate::data::{Token, TokenView, tokens_view};

verus! {

/// A lexical error: the first rule violation found, scanning left to
/// right.
#[derive(PartialEq, Eq, Debug, Clone, Copy)]
pub enum LexError {
    /// A character outside every lexical rule.
    InvalidCharacter,
    /// A raw character below U+0020 inside a string literal, or an input
    /// that ends before the closing quote of a string literal.
    InvalidUnicodeCharacter,
    /// A backslash followed by a character that names no escape.
    InvalidEscapeCharacter,
    /// A `\u` escape with fewer than four following characters, or with a
    /// character that is no hexadecimal digit among them.
    InvalidEscapeHex,
}

impl LexError {
    /// The description `message` returns, as a character sequence.
    pub open spec fn spec_message(self) -> Seq<char> {
        match self {
            LexError::InvalidCharacter => "Invalid Character"@,
            LexError::InvalidUnicodeCharacter => "Invalid Unicode Character in String"@,
            LexError::InvalidEscapeCharacter => "Invalid Escape Character"@,
            LexError::InvalidEscapeHex => "Invalid Escape Hex Character"@,
        }
    }

    /// A human-readable description of the error.
    pub fn message(&self) -> (r: String)
        ensures
            r@ == self.spec_message(),
    {
        match self {
            LexError::InvalidCharacter => "Invalid Character".to_owned(),
            LexError::InvalidUnicodeCharacter => "Invalid Unicode Character in String".to_owned(),
            LexError::InvalidEscapeCharacter => "Invalid Escape Character".to_owned(),
            LexError::InvalidEscapeHex => "Invalid Escape Hex Character".to_owned(),
        }
    }
}

/// The whitespace characters: space, line feed, tab, carriage return.
pub open spec fn is_ws_char(c: char) -> bool {
    c == ' ' || c == '\n' || c == '\t' || c == '\r'
}

/// The numeric value of a decimal digit character, if it is one.
pub open spec fn char_digit(c: char) -> Option<u8> {
    if c == '0' {
        Some(0u8)
    } else if c == '1' {
        Some(1u8)
    } else if c == '2' {
        Some(2u8)
    } else if c == '3' {
        Some(3u8)
    } else if c == '4' {
        Some(4u8)
    } else if c == '5' {
        Some(5u8)
    } else if c == '6' {
        Some(6u8)
    } else if c == '7' {
        Some(7u8)
    } else if c == '8' {
        Some(8u8)
    } else if c == '9' {
        Some(9u8)
    } else {
        None
    }
}

/// The characters accepted directly after a backslash.
pub open spec fn is_simple_escape(c: char) -> bool {
    c == '"' || c == '\\' || c == '/' || c == 'b' || c == 'f' || c == 'n' || c == 'r' || c == 't'
}

/// A hexadecimal digit, either case.
pub open spec fn is_hex_char(c: char) -> bool {
    char_digit(c) is Some || c == 'a' || c == 'b' || c == 'c' || c == 'd' || c == 'e' || c == 'f'
        || c == 'A' || c == 'B' || c == 'C' || c == 'D' || c == 'E' || c == 'F'
}

/// A raw character never legal inside a string literal.
pub open spec fn is_control_char(c: char) -> bool {
    (c as u32) < 32
}

/// The text begins with the keyword `true`.
pub open spec fn starts_with_true(s: Seq<char>) -> bool {
    s.len() >= 4 && s[0] == 't' && s[1] == 'r' && s[2] == 'u' && s[3] == 'e'
}

/// The text begins with the keyword `false`.
pub open spec fn starts_with_false(s: Seq<char>) -> bool {
    s.len() >= 5 && s[0] == 'f' && s[1] == 'a' && s[2] == 'l' && s[3] == 's' && s[4] == 'e'
}

/// The text begins with the keyword `null`.
pub open spec fn starts_with_null(s: Seq<char>) -> bool {
    s.len() >= 4 && s[0] == 'n' && s[1] == 'u' && s[2] == 'l' && s[3] == 'l'
}

/// Prepend characters to the content of a string-body result.
pub open spec fn lex_string_prepend(
    pre: Seq<char>,
    r: Result<(Seq<char>, Seq<char>), LexError>,
) -> Result<(Seq<char>, Seq<char>), LexError> {
    match r {
        Ok(p) => Ok((pre + p.0, p.1)),
        Err(e) => Err(e),
    }
}

/// The body of a string literal, starting just after the opening quote:
/// the content up to the first unescaped closing quote, and the text that
/// follows the closing quote.  Escape sequences are checked and kept as
/// written.
pub open spec fn lex_string_spec(s: Seq<char>) -> Result<(Seq<char>, Seq<char>), LexError>
    decreases s.len(),
{
    if s.len() == 0 {
        Err(LexError::InvalidUnicodeCharacter)
    } else if s[0] == '"' {
        Ok((Seq::empty(), s.skip(1)))
    } else if s[0] == '\\' {
        if s.len() >= 2 && is_simple_escape(s[1]) {
            lex_string_prepend(seq!['\\', s[1]], lex_string_spec(s.skip(2)))
        } else if s.len() >= 2 && s[1] == 'u' {
            if s.len() < 6 {
                Err(LexError::InvalidEscapeHex)
            } else if is_hex_char(s[2]) && is_hex_char(s[3]) && is_hex_char(s[4]) && is_hex_char(
                s[5],
            ) {
                lex_string_prepend(
                    seq!['\\', 'u', s[2], s[3], s[4], s[5]],
                    lex_string_spec(s.skip(6)),
                )
            } else {
                Err(LexError::InvalidEscapeHex)
            }
        } else {
            Err(LexError::InvalidEscapeCharacter)
        }
    } else if is_control_char(s[0]) {
        Err(LexError::InvalidUnicodeCharacter)
    } else {
        lex_string_prepend(seq![s[0]], lex_string_spec(s.skip(1)))
    }
}

/// A successful string body consumes at least the closing quote.
pub proof fn lemma_lex_string_rest(s: Seq<char>)
    ensures
        lex_string_spec(s) matches Ok(p) ==> p.1.len() < s.len(),
    decreases s.len(),
{
    if s.len() == 0 {
    } else if s[0] == '"' {
    } else if s[0] == '\\' {
        if s.len() >= 2 && is_simple_escape(s[1]) {
            lemma_lex_string_rest(s.skip(2));
        } else if s.len() >= 2 && s[1] == 'u' && s.len() >= 6 {
            lemma_lex_string_rest(s.skip(6));
        }
    } else if !is_control_char(s[0]) {
        lemma_lex_string_rest(s.skip(1));
    }
}

/// Prepend a token to a tokenizer result.
pub open spec fn lex_cons(
    t: TokenView,
    r: Result<Seq<TokenView>, LexError>,
) -> Result<Seq<TokenView>, LexError> {
    match r {
        Ok(ts) => Ok(seq![t] + ts),
        Err(e) => Err(e),
    }
}

/// The mathematical tokenizer.  At each position the first matching rule
/// of the list in the module description wins; whitespace is consumed and
/// discarded; a position matching no rule is an invalid character.
pub open spec fn lex_spec(s: Seq<char>) -> Result<Seq<TokenView>, LexError>
    decreases s.len(),
    via lex_spec_decreases
{
    if s.len() == 0 {
        Ok(Seq::empty())
    } else {
        let c = s[0];
        if c == '{' {
            lex_cons(TokenView::OpenParen, lex_spec(s.skip(1)))
        } else if c == '}' {
            lex_cons(TokenView::CloseParen, lex_spec(s.skip(1)))
        } else if c == '[' {
            lex_cons(TokenView::OpenBracket, lex_spec(s.skip(1)))
        } else if c == ']' {
            lex_cons(TokenView::CloseBracket, lex_spec(s.skip(1)))
        } else if c == ',' {
            lex_cons(TokenView::Comma, lex_spec(s.skip(1)))
        } else if c == ':' {
            lex_cons(TokenView::Colon, lex_spec(s.skip(1)))
        } else if c == '"' {
            match lex_string_spec(s.skip(1)) {
                Ok(p) => lex_cons(TokenView::Str(p.0), lex_spec(p.1)),
                Err(e) => Err(e),
            }
        } else if starts_with_true(s) {
            lex_cons(TokenView::True, lex_spec(s.skip(4)))
        } else if starts_with_false(s) {
            lex_cons(TokenView::False, lex_spec(s.skip(5)))
        } else if starts_with_null(s) {
            lex_cons(TokenView::Null, lex_spec(s.skip(4)))
        } else if is_ws_char(c) {
            lex_spec(s.skip(1))
        } else if c == '-' {
            lex_cons(TokenView::SignNeg, lex_spec(s.skip(1)))
        } else if c == '+' {
            lex_cons(TokenView::SignPos, lex_spec(s.skip(1)))
        } else if char_digit(c) is Some {
            lex_cons(TokenView::Digit(char_digit(c).unwrap()), lex_spec(s.skip(1)))
        } else if c == '.' {
            lex_cons(TokenView::FractionMarker, lex_spec(s.skip(1)))
        } else if c == 'e' || c == 'E' {
            lex_cons(TokenView::ExponentMarker, lex_spec(s.skip(1)))
        } else {
            Err(LexError::InvalidCharacter)
        }
    }
}

#[via_fn]
proof fn lex_spec_decreases(s: Seq<char>) {
    if s.len() > 0 {
        lemma_lex_string_rest(s.skip(1));
    }
}

/// Append a finished prefix of tokens to a tokenizer result.
pub open spec fn lex_cat(
    done: Seq<TokenView>,
    r: Result<Seq<TokenView>, LexError>,
) -> Result<Seq<TokenView>, LexError> {
    match r {
        Ok(ts) => Ok(done + ts),
        Err(e) => Err(e),
    }
}

/// What `lex` returns: exactly the verdict of `lex_spec` on the text.
pub open spec fn lex_result_matches(s: Seq<char>, r: Result<Vec<Token>, LexError>) -> bool {
    match lex_spec(s) {
        Ok(ts) => r matches Ok(v) && tokens_view(v@) == ts,
        Err(e) => r == Err::<Vec<Token>, LexError>(e),
    }
}

proof fn lemma_tokens_view_push(ts: Seq<Token>, t: Token)
    ensures
        tokens_view(ts.push(t)) == tokens_view(ts).push(t@),
{
    assert(tokens_view(ts.push(t)) =~= tokens_view(ts).push(t@));
}

/// One consumed token moves from the pending suffix to the finished
/// prefix.
proof fn lemma_lex_step(s: Seq<char>, i: int, done: Seq<Token>, tok: Token, k: int)
    requires
        0 <= i,
        1 <= k,
        i + k <= s.len(),
        lex_spec(s) == lex_cat(tokens_view(done), lex_spec(s.skip(i))),
        lex_spec(s.skip(i)) == lex_cons(tok@, lex_spec(s.skip(i + k))),
    ensures
        lex_spec(s) == lex_cat(tokens_view(done.push(tok)), lex_spec(s.skip(i + k))),
{
    lemma_tokens_view_push(done, tok);
    match lex_spec(s.skip(i + k)) {
        Ok(ts) => {
            assert(tokens_view(done) + (seq![tok@] + ts) =~= tokens_view(done).push(tok@) + ts);
        },
        Err(_) => {},
    }
}

/// One consumed piece of string content moves from the finished content
/// to the pending suffix.
proof fn lemma_string_body_step(s: Seq<char>, start: int, j: int, done: Seq<char>, add: Seq<char>, k: int)
    requires
        0 <= start <= j,
        1 <= k,
        j + k <= s.len(),
        lex_string_spec(s.skip(start)) == lex_string_prepend(done, lex_string_spec(s.skip(j))),
        lex_string_spec(s.skip(j)) == lex_string_prepend(add, lex_string_spec(s.skip(j + k))),
    ensures
        lex_string_spec(s.skip(start)) == lex_string_prepend(done + add, lex_string_spec(s.skip(j + k))),
{
    match lex_string_spec(s.skip(j + k)) {
        Ok(p) => {
            assert(done + (add + p.0) =~= (done + add) + p.0);
        },
        Err(_) => {},
    }
}

proof fn lemma_cons_cat(t: TokenView, d: Seq<TokenView>, r: Result<Seq<TokenView>, LexError>)
    ensures
        lex_cons(t, lex_cat(d, r)) == lex_cat(seq![t] + d, r),
{
    match r {
        Ok(ts) => {
            assert(seq![t] + (d + ts) =~= (seq![t] + d) + ts);
        },
        Err(_) => {},
    }
}

/// A string body that closes within `s` reads the same when more text
/// follows: same content, and the leftover is extended by that text.
pub proof fn lemma_lex_string_append(s: Seq<char>, b: Seq<char>)
    requires
        lex_string_spec(s) is Ok,
    ensures
        lex_string_spec(s + b) == match lex_string_spec(s) {
            Ok(p) => Ok::<(Seq<char>, Seq<char>), LexError>((p.0, p.1 + b)),
            Err(e) => Err(e),
        },
    decreases s.len(),
{
    if s[0] == '"' {
        assert((s + b).skip(1) =~= s.skip(1) + b);
    } else if s[0] == '\\' {
        if s.len() >= 2 && is_simple_escape(s[1]) {
            lemma_lex_string_append(s.skip(2), b);
            assert((s + b).skip(2) =~= s.skip(2) + b);
        } else {
            lemma_lex_string_append(s.skip(6), b);
            assert((s + b).skip(6) =~= s.skip(6) + b);
        }
    } else {
        lemma_lex_string_append(s.skip(1), b);
        assert((s + b).skip(1) =~= s.skip(1) + b);
    }
}

proof fn lemma_lex_append_tail(a: Seq<char>, b: Seq<char>, tok: TokenView, rest: Seq<char>)
    requires
        rest.len() < a.len(),
        lex_spec(a) == lex_cons(tok, lex_spec(rest)),
        lex_spec(a + b) == lex_cons(tok, lex_spec(rest + b)),
        lex_spec(rest) is Ok,
    ensures
        lex_spec(a + b) == lex_cat(lex_spec(a)->Ok_0, lex_spec(b)),
    decreases a.len(), 0int,
{
    lemma_lex_append(rest, b);
    lemma_cons_cat(tok, lex_spec(rest)->Ok_0, lex_spec(b));
}

/// Tokenizing is compositional: a text that tokenizes completely can be
/// followed by any other text, and the tokens simply concatenate (or the
/// first error of the second text is reported).  No token ever spans the
/// boundary between the two texts.
pub proof fn lemma_lex_append(a: Seq<char>, b: Seq<char>)
    requires
        lex_spec(a) is Ok,
    ensures
        lex_spec(a + b) == lex_cat(lex_spec(a)->Ok_0, lex_spec(b)),
    decreases a.len(), 1int,
{
    if a.len() == 0 {
        assert(a + b =~= b);
        match lex_spec(b) {
            Ok(ts) => {
                assert(Seq::<TokenView>::empty() + ts =~= ts);
            },
            Err(_) => {},
        }
    } else {
        let c = a[0];
        assert((a + b)[0] == c);
        if c == '{' {
            assert((a + b).skip(1) =~= a.skip(1) + b);
            lemma_lex_append_tail(a, b, TokenView::OpenParen, a.skip(1));
        } else if c == '}' {
            assert((a + b).skip(1) =~= a.skip(1) + b);
            lemma_lex_append_tail(a, b, TokenView::CloseParen, a.skip(1));
        } else if c == '[' {
            assert((a + b).skip(1) =~= a.skip(1) + b);
            lemma_lex_append_tail(a, b, TokenView::OpenBracket, a.skip(1));
        } else if c == ']' {
            assert((a + b).skip(1) =~= a.skip(1) + b);
            lemma_lex_append_tail(a, b, TokenView::CloseBracket, a.skip(1));
        } else if c == ',' {
            assert((a + b).skip(1) =~= a.skip(1) + b);
            lemma_lex_append_tail(a, b, TokenView::Comma, a.skip(1));
        } else if c == ':' {
            assert((a + b).skip(1) =~= a.skip(1) + b);
            lemma_lex_append_tail(a, b, TokenView::Colon, a.skip(1));
        } else if c == '"' {
            lemma_lex_string_rest(a.skip(1));
            lemma_lex_string_append(a.skip(1), b);
            assert((a + b).skip(1) =~= a.skip(1) + b);
            let p = lex_string_spec(a.skip(1))->Ok_0;
            lemma_lex_append_tail(a, b, TokenView::Str(p.0), p.1);
        } else if starts_with_true(a) {
            assert(starts_with_true(a + b));
            assert((a + b).skip(4) =~= a.skip(4) + b);
            lemma_lex_append_tail(a, b, TokenView::True, a.skip(4));
        } else if starts_with_false(a) {
            assert(starts_with_false(a + b));
            assert((a + b).skip(5) =~= a.skip(5) + b);
            lemma_lex_append_tail(a, b, TokenView::False, a.skip(5));
        } else if starts_with_null(a) {
            assert(starts_with_null(a + b));
            assert((a + b).skip(4) =~= a.skip(4) + b);
            lemma_lex_append_tail(a, b, TokenView::Null, a.skip(4));
        } else if is_ws_char(c) {
            assert((a + b).skip(1) =~= a.skip(1) + b);
            lemma_lex_append(a.skip(1), b);
        } else if c == '-' {
            assert((a + b).skip(1) =~= a.skip(1) + b);
            lemma_lex_append_tail(a, b, TokenView::SignNeg, a.skip(1));
        } else if c == '+' {
            assert((a + b).skip(1) =~= a.skip(1) + b);
            lemma_lex_append_tail(a, b, TokenView::SignPos, a.skip(1));
        } else if char_digit(c) is Some {
            assert((a + b).skip(1) =~= a.skip(1) + b);
            lemma_lex_append_tail(a, b, TokenView::Digit(char_digit(c).unwrap()), a.skip(1));
        } else if c == '.' {
            assert((a + b).skip(1) =~= a.skip(1) + b);
            lemma_lex_append_tail(a, b, TokenView::FractionMarker, a.skip(1));
        } else {
            assert((a + b).skip(1) =~= a.skip(1) + b);
            lemma_lex_append_tail(a, b, TokenView::ExponentMarker, a.skip(1));
        }
    }
}

/// A text of nothing but whitespace tokenizes to no tokens at all.
pub proof fn lemma_lex_whitespace(w: Seq<char>)
    requires
        forall|i: int| 0 <= i < w.len() ==> is_ws_char(#[trigger] w[i]),
    ensures
        lex_spec(w) == Ok::<Seq<TokenView>, LexError>(Seq::empty()),
    decreases w.len(),
{
    if w.len() > 0 {
        assert forall|i: int| 0 <= i < w.skip(1).len() implies is_ws_char(#[trigger] w.skip(1)[i]) by {
            assert(w.skip(1)[i] == w[i + 1]);
        }
        lemma_lex_whitespace(w.skip(1));
    }
}

/// LAW — whitespace insignificance.  Inserting any run of whitespace
/// after a piece of text that tokenizes completely changes nothing: the
/// whole input tokenizes to the same sequence, so the parse of the whole
/// input is the same tree.  Applied piece by piece this shows that two
/// texts differing only in whitespace between tokens get equal trees.
pub proof fn lemma_lex_whitespace_insignificant(a: Seq<char>, w: Seq<char>, b: Seq<char>)
    requires
        lex_spec(a) is Ok,
        forall|i: int| 0 <= i < w.len() ==> is_ws_char(#[trigger] w[i]),
    ensures
        lex_spec(a + w + b) == lex_spec(a + b),
{
    lemma_lex_whitespace(w);
    lemma_lex_append(a, w + b);
    lemma_lex_append(a, b);
    lemma_lex_append(w, b);
    assert(a + w + b =~= a + (w + b));
    match lex_spec(b) {
        Ok(ts) => {
            assert(Seq::<TokenView>::empty() + ts =~= ts);
        },
        Err(_) => {},
    }
}

/// Relies on `String::push`: appends the given character to the string.
#[verifier::external_body]
fn push_char(s: &mut String, c: char)
    ensures
        final(s)@ == old(s)@.push(c),
{
    s.push(c);
}

fn digit_value(c: char) -> (r: Option<u8>)
    ensures
        r == char_digit(c),
{
    match c {
        '0' => Some(0u8),
        '1' => Some(1u8),
        '2' => Some(2u8),
        '3' => Some(3u8),
        '4' => Some(4u8),
        '5' => Some(5u8),
        '6' => Some(6u8),
        '7' => Some(7u8),
        '8' => Some(8u8),
        '9' => Some(9u8),
        _ => None,
    }
}

fn simple_escape(c: char) -> (r: bool)
    ensures
        r == is_simple_escape(c),
{
    c == '"' || c == '\\' || c == '/' || c == 'b' || c == 'f' || c == 'n' || c == 'r' || c == 't'
}

fn hex_char(c: char) -> (r: bool)
    ensures
        r == is_hex_char(c),
{
    let d = digit_value(c);
    d.is_some() || c == 'a' || c == 'b' || c == 'c' || c == 'd' || c == 'e' || c == 'f' || c == 'A'
        || c == 'B' || c == 'C' || c == 'D' || c == 'E' || c == 'F'
}

/// The characters of the text, in order.
fn text_chars(s: &str) -> (r: Vec<char>)
    ensures
        r@ == s@,
{
    let n = s.unicode_len();
    let mut r: Vec<char> = Vec::new();
    let mut i: usize = 0;
    while i < n
        invariant
            i <= n,
            n == s@.len(),
            r@.len() == i,
            forall|k: int| 0 <= k < i ==> r@[k] == s@[k],
        decreases n - i,
    {
        let c = s.get_char(i);
        r.push(c);
        i = i + 1;
    }
    proof {
        assert(r@ =~= s@);
    }
    r
}

/// The body of a string literal, scanning from `start` (just after the
/// opening quote) to the first unescaped closing quote.  Returns the
/// content with escapes retained as written, and the position just after
/// the closing quote; or the first error, exactly as `lex_string_spec`
/// says.
fn lex_string(cs: &Vec<char>, start: usize) -> (r: (Result<String, LexError>, usize))
    requires
        start <= cs@.len(),
    ensures
        match lex_string_spec(cs@.skip(start as int)) {
            Ok(p) => r.0 matches Ok(content) && content@ == p.0 && start < r.1 && r.1 <= cs@.len()
                && p.1 == cs@.skip(r.1 as int),
            Err(e) => r.0 == Err::<String, LexError>(e),
        },
{
    let n = cs.len();
    let mut content = String::new();
    let mut j = start;
    loop
        invariant
            start <= j <= n,
            n == cs@.len(),
            lex_string_spec(cs@.skip(start as int)) == lex_string_prepend(
                content@,
                lex_string_spec(cs@.skip(j as int)),
            ),
        decreases n - j,
    {
        if j == n {
            return (Err(LexError::InvalidUnicodeCharacter), j);
        }
        let c = cs[j];
        if c == '"' {
            proof {
                lemma_seq_skip_of_skip(cs@, j as int, 1);
                assert(content@ + Seq::<char>::empty() =~= content@);
            }
            return (Ok(content), j + 1);
        } else if c == '\\' {
            if j + 1 == n {
                return (Err(LexError::InvalidEscapeCharacter), j);
            }
            let e = cs[j + 1];
            if simple_escape(e) {
                proof {
                    lemma_seq_skip_of_skip(cs@, j as int, 2);
                    lemma_string_body_step(
                        cs@,
                        start as int,
                        j as int,
                        content@,
                        seq!['\\', e],
                        2,
                    );
                    assert(content@.push('\\').push(e) =~= content@ + seq!['\\', e]);
                }
                push_char(&mut content, '\\');
                push_char(&mut content, e);
                j = j + 2;
            } else if e == 'u' {
                if n - j < 6 {
                    return (Err(LexError::InvalidEscapeHex), j);
                }
                let h1 = cs[j + 2];
                let h2 = cs[j + 3];
                let h3 = cs[j + 4];
                let h4 = cs[j + 5];
                if hex_char(h1) && hex_char(h2) && hex_char(h3) && hex_char(h4) {
                    proof {
                        lemma_seq_skip_of_skip(cs@, j as int, 6);
                        lemma_string_body_step(
                            cs@,
                            start as int,
                            j as int,
                            content@,
                            seq!['\\', 'u', h1, h2, h3, h4],
                            6,
                        );
                        assert(content@.push('\\').push('u').push(h1).push(h2).push(h3).push(h4)
                            =~= content@ + seq!['\\', 'u', h1, h2, h3, h4]);
                    }
                    push_char(&mut content, '\\');
                    push_char(&mut content, 'u');
                    push_char(&mut content, h1);
                    push_char(&mut content, h2);
                    push_char(&mut content, h3);
                    push_char(&mut content, h4);
                    j = j + 6;
                } else {
                    return (Err(LexError::InvalidEscapeHex), j);
                }
            } else {
                return (Err(LexError::InvalidEscapeCharacter), j);
            }
        } else if (c as u32) < 32 {
            return (Err(LexError::InvalidUnicodeCharacter), j);
        } else {
            proof {
                lemma_seq_skip_of_skip(cs@, j as int, 1);
                lemma_string_body_step(cs@, start as int, j as int, content@, seq![c], 1);
                assert(content@.push(c) =~= content@ + seq![c]);
            }
            push_char(&mut content, c);
            j = j + 1;
        }
    }
}

/// Tokenize a text: the ordered token sequence of the input, or the
/// first lexical error, exactly as `lex_spec` says.  Whitespace is
/// consumed and never appears among the returned tokens.
pub fn lex(input: &str) -> (r: Result<Vec<Token>, LexError>)
    ensures
        lex_result_matches(input@, r),
{
    let cs = text_chars(input);
    let n = cs.len();
    let mut out: Vec<Token> = Vec::new();
    let mut i: usize = 0;
    proof {
        assert(cs@.skip(0) =~= cs@);
        assert(tokens_view(out@) =~= Seq::<TokenView>::empty());
        match lex_spec(cs@) {
            Ok(ts) => {
                assert(tokens_view(out@) + ts =~= ts);
            },
            Err(_) => {},
        }
    }
    while i < n
        invariant
            i <= n,
            n == cs@.len(),
            cs@ == input@,
            lex_spec(cs@) == lex_cat(tokens_view(out@), lex_spec(cs@.skip(i as int))),
        decreases n - i,
    {
        let c = cs[i];
        if c == '{' {
            proof {
                lemma_seq_skip_of_skip(cs@, i as int, 1);
                lemma_lex_step(cs@, i as int, out@, Token::OpenParen, 1);
            }
            out.push(Token::OpenParen);
            i = i + 1;
        } else if c == '}' {
            proof {
                lemma_seq_skip_of_skip(cs@, i as int, 1);
                lemma_lex_step(cs@, i as int, out@, Token::CloseParen, 1);
            }
            out.push(Token::CloseParen);
            i = i + 1;
        } else if c == '[' {
            proof {
                lemma_seq_skip_of_skip(cs@, i as int, 1);
                lemma_lex_step(cs@, i as int, out@, Token::OpenBracket, 1);
            }
            out.push(Token::OpenBracket);
            i = i + 1;
        } else if c == ']' {
            proof {
                lemma_seq_skip_of_skip(cs@, i as int, 1);
                lemma_lex_step(cs@, i as int, out@, Token::CloseBracket, 1);
            }
            out.push(Token::CloseBracket);
            i = i + 1;
        } else if c == ',' {
            proof {
                lemma_seq_skip_of_skip(cs@, i as int, 1);
                lemma_lex_step(cs@, i as int, out@, Token::Comma, 1);
            }
            out.push(Token::Comma);
            i = i + 1;
        } else if c == ':' {
            proof {
                lemma_seq_skip_of_skip(cs@, i as int, 1);
                lemma_lex_step(cs@, i as int, out@, Token::Colon, 1);
            }
            out.push(Token::Colon);
            i = i + 1;
        } else if c == '"' {
            let (body, next) = lex_string(&cs, i + 1);
            proof {
                lemma_seq_skip_of_skip(cs@, i as int, 1);
            }
            match body {
                Ok(content) => {
                    let tok = Token::String(content);
                    proof {
                        lemma_lex_step(cs@, i as int, out@, tok, next - i);
                    }
                    out.push(tok);
                    i = next;
                },
                Err(e) => {
                    return Err(e);
                },
            }
        } else if c == 't' {
            if n - i >= 4 && cs[i + 1] == 'r' && cs[i + 2] == 'u' && cs[i + 3] == 'e' {
                proof {
                    lemma_seq_skip_of_skip(cs@, i as int, 4);
                    lemma_lex_step(cs@, i as int, out@, Token::True, 4);
                }
                out.push(Token::True);
                i = i + 4;
            } else {
                return Err(LexError::InvalidCharacter);
            }
        } else if c == 'f' {
            if n - i >= 5 && cs[i + 1] == 'a' && cs[i + 2] == 'l' && cs[i + 3] == 's' && cs[i + 4]
                == 'e' {
                proof {
                    lemma_seq_skip_of_skip(cs@, i as int, 5);
                    lemma_lex_step(cs@, i as int, out@, Token::False, 5);
                }
                out.push(Token::False);
                i = i + 5;
            } else {
                return Err(LexError::InvalidCharacter);
            }
        } else if c == 'n' {
            if n - i >= 4 && cs[i + 1] == 'u' && cs[i + 2] == 'l' && cs[i + 3] == 'l' {
                proof {
                    lemma_seq_skip_of_skip(cs@, i as int, 4);
                    lemma_lex_step(cs@, i as int, out@, Token::Null, 4);
                }
                out.push(Token::Null);
                i = i + 4;
            } else {
                return Err(LexError::InvalidCharacter);
            }
        } else if c == ' ' || c == '\n' || c == '\t' || c == '\r' {
            proof {
                lemma_seq_skip_of_skip(cs@, i as int, 1);
            }
            i = i + 1;
        } else if c == '-' {
            proof {
                lemma_seq_skip_of_skip(cs@, i as int, 1);
                lemma_lex_step(cs@, i as int, out@, Token::SignNeg, 1);
            }
            out.push(Token::SignNeg);
            i = i + 1;
        } else if c == '+' {
            proof {
                lemma_seq_skip_of_skip(cs@, i as int, 1);
                lemma_lex_step(cs@, i as int, out@, Token::SignPos, 1);
            }
            out.push(Token::SignPos);
            i = i + 1;
        } else {
            let d = digit_value(c);
            match d {
                Some(dv) => {
                    proof {
                        lemma_seq_skip_of_skip(cs@, i as int, 1);
                        lemma_lex_step(cs@, i as int, out@, Token::Digit(dv), 1);
                    }
                    out.push(Token::Digit(dv));
                    i = i + 1;
                },
                None => {
                    if c == '.' {
                        proof {
                            lemma_seq_skip_of_skip(cs@, i as int, 1);
                            lemma_lex_step(cs@, i as int, out@, Token::FractionMarker, 1);
                        }
                        out.push(Token::FractionMarker);
                        i = i + 1;
                    } else if c == 'e' || c == 'E' {
                        proof {
                            lemma_seq_skip_of_skip(cs@, i as int, 1);
                            lemma_lex_step(cs@, i as int, out@, Token::ExponentMarker, 1);
                        }
                        out.push(Token::ExponentMarker);
                        i = i + 1;
                    } else {
                        return Err(LexError::InvalidCharacter);
                    }
                },
            }
        }
    }
    proof {
        assert(cs@.skip(n as int).len() == 0);
        match lex_spec(cs@) {
            Ok(ts) => {
                assert(tokens_view(out@) + Seq::<TokenView>::empty() =~= tokens_view(out@));
            },
            Err(_) => {},
        }
    }
    Ok(out)
}

} // verus!
