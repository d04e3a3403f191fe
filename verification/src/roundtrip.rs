//! The canonical token rendering of a tree, and the round-trip law:
//! parsing the canonical rendering of any well-formed tree yields
//! exactly that tree.
//!
//! In particular, an object built from any member sequence — any order,
//! any count, duplicate keys included — parses back to exactly that
//! member sequence: source order and count are preserved and duplicates
//! are retained.

use vstd::prelude::*;
use crate::data::{TokenView, JsonDataView, JsonElementView, JsonMemberView, JsonNumberView,
    JsonValueView, JsonObjectView, JsonArrayView, JsonStringView};
use crate::parse::{ParseError, digit_run_len, digit_run_value, p_integer, p_fraction, p_exponent,
    p_number, p_element, p_value, p_members, p_members_tail, p_member, p_elements,
    p_elements_tail, p_doc, lemma_digit_run_len};
use crate::lex::{LexError, lex_spec, lex_string_spec, char_digit, lemma_lex_append};

verus! {

/// The decimal digits of a non-negative number, most significant first;
/// `0` is the single digit `0`.
pub open spec fn dec_digits(n: int) -> Seq<u8>
    decreases n,
{
    if n < 10 {
        seq![n as u8]
    } else {
        dec_digits(n / 10).push((n % 10) as u8)
    }
}

/// Digit values as digit tokens.
pub open spec fn digit_tokens(ds: Seq<u8>) -> Seq<TokenView> {
    Seq::new(ds.len(), |i: int| TokenView::Digit(ds[i]))
}

/// The value of a digit sequence read as a decimal number, most
/// significant digit first.
pub open spec fn digits_value(ds: Seq<u8>, n: int) -> int
    decreases n,
{
    if n <= 0 {
        0
    } else {
        digits_value(ds, n - 1) * 10 + ds[n - 1]
    }
}

/// The canonical tokens of a signed integer: a minus sign for a negative
/// number, then its digits.
pub open spec fn int_tokens(v: i64) -> Seq<TokenView> {
    if v < 0 {
        seq![TokenView::SignNeg] + digit_tokens(dec_digits(-(v as int)))
    } else {
        digit_tokens(dec_digits(v as int))
    }
}

/// The canonical tokens of an optional fraction part.
pub open spec fn frac_tokens(f: Option<u64>) -> Seq<TokenView> {
    match f {
        Some(x) => seq![TokenView::FractionMarker] + digit_tokens(dec_digits(x as int)),
        None => Seq::empty(),
    }
}

/// The canonical tokens of an optional exponent part.
pub open spec fn exp_tokens(e: Option<i64>) -> Seq<TokenView> {
    match e {
        Some(x) => seq![TokenView::ExponentMarker] + int_tokens(x),
        None => Seq::empty(),
    }
}

/// The canonical tokens of a number node.
pub open spec fn number_tokens(n: JsonNumberView) -> Seq<TokenView> {
    int_tokens(n.integer) + frac_tokens(n.fraction) + exp_tokens(n.exponent)
}

/// The canonical tokens of a value.
pub open spec fn value_tokens(v: JsonValueView) -> Seq<TokenView>
    decreases v,
    via value_tokens_decreases
{
    match v {
        JsonValueView::Object(o) => seq![TokenView::OpenParen] + members_tokens(o.members) + seq![
            TokenView::CloseParen,
        ],
        JsonValueView::Array(a) => seq![TokenView::OpenBracket] + elements_tokens(a.elements)
            + seq![TokenView::CloseBracket],
        JsonValueView::String(s) => seq![TokenView::Str(s.string)],
        JsonValueView::Number(n) => number_tokens(n),
        JsonValueView::True => seq![TokenView::True],
        JsonValueView::False => seq![TokenView::False],
        JsonValueView::Null => seq![TokenView::Null],
    }
}

#[via_fn]
proof fn value_tokens_decreases(v: JsonValueView) {
    match v {
        JsonValueView::Object(o) => {
            assert(decreases_to!(v => o));
            assert(decreases_to!(o => o.members));
        },
        JsonValueView::Array(a) => {
            assert(decreases_to!(v => a));
            assert(decreases_to!(a => a.elements));
        },
        _ => {},
    }
}

/// The canonical tokens of a member list: the first member, then each
/// further member prefixed by a comma.
pub open spec fn members_tokens(ms: Seq<JsonMemberView>) -> Seq<TokenView>
    decreases ms, 1int,
{
    if ms.len() == 0 {
        Seq::empty()
    } else {
        member_tokens(ms[0]) + members_sep_tokens(ms.subrange(1, ms.len() as int))
    }
}

/// Comma-prefixed members.
pub open spec fn members_sep_tokens(ms: Seq<JsonMemberView>) -> Seq<TokenView>
    decreases ms, 0int,
{
    if ms.len() == 0 {
        Seq::empty()
    } else {
        seq![TokenView::Comma] + member_tokens(ms[0]) + members_sep_tokens(
            ms.subrange(1, ms.len() as int),
        )
    }
}

/// The canonical tokens of a member: key, colon, value.
pub open spec fn member_tokens(m: JsonMemberView) -> Seq<TokenView>
    decreases m,
{
    seq![TokenView::Str(m.string.string), TokenView::Colon] + element_tokens(m.element)
}

/// The canonical tokens of an element list.
pub open spec fn elements_tokens(es: Seq<JsonElementView>) -> Seq<TokenView>
    decreases es, 1int,
{
    if es.len() == 0 {
        Seq::empty()
    } else {
        element_tokens(es[0]) + elements_sep_tokens(es.subrange(1, es.len() as int))
    }
}

/// Comma-prefixed elements.
pub open spec fn elements_sep_tokens(es: Seq<JsonElementView>) -> Seq<TokenView>
    decreases es, 0int,
{
    if es.len() == 0 {
        Seq::empty()
    } else {
        seq![TokenView::Comma] + element_tokens(es[0]) + elements_sep_tokens(
            es.subrange(1, es.len() as int),
        )
    }
}

/// The canonical tokens of an element.
pub open spec fn element_tokens(e: JsonElementView) -> Seq<TokenView>
    decreases e,
{
    value_tokens(e.value)
}

/// A number the parser can produce: magnitudes fit in the signed 64-bit
/// range, so the most negative value never appears.
pub open spec fn wf_number(n: JsonNumberView) -> bool {
    n.integer != i64::MIN && (n.exponent matches Some(e) ==> e != i64::MIN)
}

/// A well-formed value: every number in it is well formed.
pub open spec fn wf_value(v: JsonValueView) -> bool
    decreases v,
    via wf_value_decreases
{
    match v {
        JsonValueView::Object(o) => wf_members(o.members),
        JsonValueView::Array(a) => wf_elements(a.elements),
        JsonValueView::Number(n) => wf_number(n),
        _ => true,
    }
}

#[via_fn]
proof fn wf_value_decreases(v: JsonValueView) {
    match v {
        JsonValueView::Object(o) => {
            assert(decreases_to!(v => o));
            assert(decreases_to!(o => o.members));
        },
        JsonValueView::Array(a) => {
            assert(decreases_to!(v => a));
            assert(decreases_to!(a => a.elements));
        },
        _ => {},
    }
}

/// Every member of the list is well formed.
pub open spec fn wf_members(ms: Seq<JsonMemberView>) -> bool
    decreases ms,
{
    ms.len() == 0 || (wf_member(ms[0]) && wf_members(ms.subrange(1, ms.len() as int)))
}

/// Every element of the list is well formed.
pub open spec fn wf_elements(es: Seq<JsonElementView>) -> bool
    decreases es,
{
    es.len() == 0 || (wf_element(es[0]) && wf_elements(es.subrange(1, es.len() as int)))
}

/// A well-formed member.
pub open spec fn wf_member(m: JsonMemberView) -> bool
    decreases m,
{
    wf_element(m.element)
}

/// A well-formed element.
pub open spec fn wf_element(e: JsonElementView) -> bool
    decreases e,
{
    wf_value(e.value)
}

/// A well-formed document.
pub open spec fn wf_doc(d: JsonDataView) -> bool {
    wf_element(d.element)
}

/// What may follow a complete value: nothing, or a separator or closer
/// of the surrounding object or array.
pub open spec fn follows_value(rest: Seq<TokenView>) -> bool {
    rest.len() == 0 || rest[0] is Comma || rest[0] is CloseParen || rest[0] is CloseBracket
}

/// What stands after a member or element list: nothing, or the closer
/// of the surrounding object or array.
pub open spec fn closes_group(rest: Seq<TokenView>) -> bool {
    rest.len() == 0 || rest[0] is CloseParen || rest[0] is CloseBracket
}

/// The character of a decimal digit value.
pub open spec fn digit_char(d: u8) -> char {
    if d == 0 {
        '0'
    } else if d == 1 {
        '1'
    } else if d == 2 {
        '2'
    } else if d == 3 {
        '3'
    } else if d == 4 {
        '4'
    } else if d == 5 {
        '5'
    } else if d == 6 {
        '6'
    } else if d == 7 {
        '7'
    } else if d == 8 {
        '8'
    } else {
        '9'
    }
}

/// Digit values as text.
pub open spec fn digit_chars(ds: Seq<u8>) -> Seq<char> {
    Seq::new(ds.len(), |i: int| digit_char(ds[i]))
}

/// The canonical text of a signed integer.
pub open spec fn int_text(v: i64) -> Seq<char> {
    if v < 0 {
        seq!['-'] + digit_chars(dec_digits(-(v as int)))
    } else {
        digit_chars(dec_digits(v as int))
    }
}

/// The canonical text of an optional fraction part.
pub open spec fn frac_text(f: Option<u64>) -> Seq<char> {
    match f {
        Some(x) => seq!['.'] + digit_chars(dec_digits(x as int)),
        None => Seq::empty(),
    }
}

/// The canonical text of an optional exponent part.
pub open spec fn exp_text(e: Option<i64>) -> Seq<char> {
    match e {
        Some(x) => seq!['e'] + int_text(x),
        None => Seq::empty(),
    }
}

/// The canonical text of a number node.
pub open spec fn number_text(n: JsonNumberView) -> Seq<char> {
    int_text(n.integer) + frac_text(n.fraction) + exp_text(n.exponent)
}

/// The canonical text of a string node: its content between quotes,
/// written exactly as the content stands (escapes are already retained
/// as written in the content itself).
pub open spec fn string_text(s: Seq<char>) -> Seq<char> {
    seq!['"'] + s + seq!['"']
}

/// The canonical text of a value.
pub open spec fn value_text(v: JsonValueView) -> Seq<char>
    decreases v,
    via value_text_decreases
{
    match v {
        JsonValueView::Object(o) => seq!['{'] + members_text(o.members) + seq!['}'],
        JsonValueView::Array(a) => seq!['['] + elements_text(a.elements) + seq![']'],
        JsonValueView::String(s) => string_text(s.string),
        JsonValueView::Number(n) => number_text(n),
        JsonValueView::True => seq!['t', 'r', 'u', 'e'],
        JsonValueView::False => seq!['f', 'a', 'l', 's', 'e'],
        JsonValueView::Null => seq!['n', 'u', 'l', 'l'],
    }
}

#[via_fn]
proof fn value_text_decreases(v: JsonValueView) {
    match v {
        JsonValueView::Object(o) => {
            assert(decreases_to!(v => o));
            assert(decreases_to!(o => o.members));
        },
        JsonValueView::Array(a) => {
            assert(decreases_to!(v => a));
            assert(decreases_to!(a => a.elements));
        },
        _ => {},
    }
}

/// The canonical text of a member list.
pub open spec fn members_text(ms: Seq<JsonMemberView>) -> Seq<char>
    decreases ms, 1int,
{
    if ms.len() == 0 {
        Seq::empty()
    } else {
        member_text(ms[0]) + members_sep_text(ms.subrange(1, ms.len() as int))
    }
}

/// Comma-prefixed member texts.
pub open spec fn members_sep_text(ms: Seq<JsonMemberView>) -> Seq<char>
    decreases ms, 0int,
{
    if ms.len() == 0 {
        Seq::empty()
    } else {
        seq![','] + member_text(ms[0]) + members_sep_text(ms.subrange(1, ms.len() as int))
    }
}

/// The canonical text of a member: quoted key, colon, value.
pub open spec fn member_text(m: JsonMemberView) -> Seq<char>
    decreases m,
{
    string_text(m.string.string) + seq![':'] + element_text(m.element)
}

/// The canonical text of an element list.
pub open spec fn elements_text(es: Seq<JsonElementView>) -> Seq<char>
    decreases es, 1int,
{
    if es.len() == 0 {
        Seq::empty()
    } else {
        element_text(es[0]) + elements_sep_text(es.subrange(1, es.len() as int))
    }
}

/// Comma-prefixed element texts.
pub open spec fn elements_sep_text(es: Seq<JsonElementView>) -> Seq<char>
    decreases es, 0int,
{
    if es.len() == 0 {
        Seq::empty()
    } else {
        seq![','] + element_text(es[0]) + elements_sep_text(es.subrange(1, es.len() as int))
    }
}

/// The canonical text of an element.
pub open spec fn element_text(e: JsonElementView) -> Seq<char>
    decreases e,
{
    value_text(e.value)
}

/// String content that can be written back between quotes as it stands:
/// the tokenizer reads it to the closing quote and returns it unchanged.
/// This excludes raw quotes, control characters and malformed escape
/// sequences; it holds of every content the tokenizer itself produces.
pub open spec fn renderable_string(s: Seq<char>) -> bool {
    lex_string_spec(s + seq!['"']) == Ok::<(Seq<char>, Seq<char>), LexError>((s, Seq::empty()))
}

/// Every string content in the value can be written back as it stands.
pub open spec fn renderable_value(v: JsonValueView) -> bool
    decreases v,
    via renderable_value_decreases
{
    match v {
        JsonValueView::Object(o) => renderable_members(o.members),
        JsonValueView::Array(a) => renderable_elements(a.elements),
        JsonValueView::String(s) => renderable_string(s.string),
        _ => true,
    }
}

#[via_fn]
proof fn renderable_value_decreases(v: JsonValueView) {
    match v {
        JsonValueView::Object(o) => {
            assert(decreases_to!(v => o));
            assert(decreases_to!(o => o.members));
        },
        JsonValueView::Array(a) => {
            assert(decreases_to!(v => a));
            assert(decreases_to!(a => a.elements));
        },
        _ => {},
    }
}

/// Every member of the list can be written back.
pub open spec fn renderable_members(ms: Seq<JsonMemberView>) -> bool
    decreases ms,
{
    ms.len() == 0 || (renderable_member(ms[0]) && renderable_members(
        ms.subrange(1, ms.len() as int),
    ))
}

/// Every element of the list can be written back.
pub open spec fn renderable_elements(es: Seq<JsonElementView>) -> bool
    decreases es,
{
    es.len() == 0 || (renderable_element(es[0]) && renderable_elements(
        es.subrange(1, es.len() as int),
    ))
}

/// A member whose key and value can be written back.
pub open spec fn renderable_member(m: JsonMemberView) -> bool
    decreases m,
{
    renderable_string(m.string.string) && renderable_element(m.element)
}

/// An element whose value can be written back.
pub open spec fn renderable_element(e: JsonElementView) -> bool
    decreases e,
{
    renderable_value(e.value)
}

/// A document whose every string content can be written back.
pub open spec fn renderable_doc(d: JsonDataView) -> bool {
    renderable_element(d.element)
}

/// The canonical digits of a non-negative number: at least one digit,
/// every digit below ten, and no leading zero on a multi-digit run.
proof fn lemma_dec_digits(n: int)
    requires
        n >= 0,
    ensures
        dec_digits(n).len() >= 1,
        forall|i: int| 0 <= i < dec_digits(n).len() ==> 0 <= #[trigger] dec_digits(n)[i] < 10,
        n >= 10 ==> dec_digits(n)[0] != 0,
        n < 10 ==> dec_digits(n) == seq![n as u8],
    decreases n,
{
    if n >= 10 {
        lemma_dec_digits(n / 10);
        let ds = dec_digits(n / 10);
        assert forall|i: int| 0 <= i < dec_digits(n).len() implies 0 <= #[trigger] dec_digits(
            n,
        )[i] < 10 by {
            if i < ds.len() {
                assert(dec_digits(n)[i] == ds[i]);
            }
        }
        assert(dec_digits(n)[0] == ds[0]);
        if n / 10 < 10 {
            assert(ds == seq![(n / 10) as u8]);
            assert(n / 10 >= 1);
        }
    }
}

/// The value of a prefix ignores a pushed digit.
proof fn lemma_digits_value_prefix(ds: Seq<u8>, d: u8, k: int)
    requires
        0 <= k <= ds.len(),
    ensures
        digits_value(ds.push(d), k) == digits_value(ds, k),
    decreases k,
{
    if k > 0 {
        lemma_digits_value_prefix(ds, d, k - 1);
        assert(ds.push(d)[k - 1] == ds[k - 1]);
    }
}

/// Reading the canonical digits of `n` back gives `n`.
proof fn lemma_dec_digits_value(n: int)
    requires
        n >= 0,
    ensures
        digits_value(dec_digits(n), dec_digits(n).len() as int) == n,
    decreases n,
{
    if n < 10 {
        assert(dec_digits(n) == seq![n as u8]);
        assert(digits_value(dec_digits(n), 1) == digits_value(dec_digits(n), 0) * 10 + dec_digits(
            n,
        )[0]);
        assert(dec_digits(n)[0] == n as u8);
    } else {
        lemma_dec_digits_value(n / 10);
        lemma_dec_digits(n / 10);
        let ds = dec_digits(n / 10);
        lemma_digits_value_prefix(ds, (n % 10) as u8, ds.len() as int);
        assert(dec_digits(n) == ds.push((n % 10) as u8));
        assert(digits_value(ds.push((n % 10) as u8), ds.len() as int + 1) == digits_value(
            ds.push((n % 10) as u8),
            ds.len() as int,
        ) * 10 + (n % 10));
        assert(dec_digits(n).len() == ds.len() + 1);
    }
}

/// A digit-token rendering followed by a non-digit is read back as the
/// same digits.
proof fn lemma_digit_tokens_run_value(ds: Seq<u8>, rest: Seq<TokenView>, k: int)
    requires
        0 <= k <= ds.len(),
    ensures
        digit_run_value(digit_tokens(ds) + rest, k) == digits_value(ds, k),
    decreases k,
{
    if k > 0 {
        lemma_digit_tokens_run_value(ds, rest, k - 1);
        assert((digit_tokens(ds) + rest)[k - 1] == TokenView::Digit(ds[k - 1]));
    }
}

/// The digit run of a digit-token rendering followed by a non-digit is
/// exactly the rendered digits.
proof fn lemma_digit_tokens_run(ds: Seq<u8>, rest: Seq<TokenView>)
    requires
        !(rest.len() > 0 && rest[0] is Digit),
    ensures
        digit_run_len(digit_tokens(ds) + rest) == ds.len(),
        digit_run_value(digit_tokens(ds) + rest, ds.len() as int) == digits_value(
            ds,
            ds.len() as int,
        ),
{
    let t = digit_tokens(ds) + rest;
    lemma_digit_run_len(t);
    let run = digit_run_len(t) as int;
    if run < ds.len() {
        assert(t[run] == TokenView::Digit(ds[run]));
    }
    if run > ds.len() {
        assert(t[ds.len() as int] == rest[0]);
        assert(t[ds.len() as int] is Digit);
    }
    lemma_digit_tokens_run_value(ds, rest, ds.len() as int);
}

/// Reading back the canonical tokens of a signed 64-bit integer other
/// than the most negative one gives exactly that integer.
proof fn lemma_int_roundtrip(v: i64, rest: Seq<TokenView>)
    requires
        v != i64::MIN,
        !(rest.len() > 0 && rest[0] is Digit),
    ensures
        p_integer(int_tokens(v) + rest) == Ok::<Option<(i64, Seq<TokenView>)>, ParseError>(
            Some((v, rest)),
        ),
{
    let t = int_tokens(v) + rest;
    let m = if v < 0 {
        -(v as int)
    } else {
        v as int
    };
    lemma_dec_digits(m);
    lemma_dec_digits_value(m);
    let ds = dec_digits(m);
    lemma_digit_tokens_run(ds, rest);
    if v < 0 {
        assert(t[0] == TokenView::SignNeg);
        assert(t.skip(1) =~= digit_tokens(ds) + rest);
        assert((digit_tokens(ds) + rest).skip(ds.len() as int) =~= rest);
        if ds.len() > 1 {
            assert(m >= 10);
            assert((digit_tokens(ds) + rest)[0] == TokenView::Digit(ds[0]));
        }
    } else {
        assert(t =~= digit_tokens(ds) + rest);
        assert(t[0] == TokenView::Digit(ds[0]));
        assert(t.skip(ds.len() as int) =~= rest);
        if ds.len() > 1 {
            assert(m >= 10);
        }
    }
}

/// Reading back the canonical tokens of a fraction part gives exactly
/// its magnitude.
proof fn lemma_frac_roundtrip(x: u64, rest: Seq<TokenView>)
    requires
        !(rest.len() > 0 && rest[0] is Digit),
    ensures
        p_fraction(seq![TokenView::FractionMarker] + digit_tokens(dec_digits(x as int)) + rest)
            == Ok::<Option<(u64, Seq<TokenView>)>, ParseError>(Some((x, rest))),
{
    let ds = dec_digits(x as int);
    let t = seq![TokenView::FractionMarker] + digit_tokens(ds) + rest;
    lemma_dec_digits(x as int);
    lemma_dec_digits_value(x as int);
    lemma_digit_tokens_run(ds, rest);
    assert(t[0] == TokenView::FractionMarker);
    assert(t.skip(1) =~= digit_tokens(ds) + rest);
    assert((digit_tokens(ds) + rest).skip(ds.len() as int) =~= rest);
}

/// Reading back the canonical tokens of an exponent part gives exactly
/// its value.
proof fn lemma_exp_roundtrip(x: i64, rest: Seq<TokenView>)
    requires
        x != i64::MIN,
        !(rest.len() > 0 && rest[0] is Digit),
    ensures
        p_exponent(seq![TokenView::ExponentMarker] + int_tokens(x) + rest) == Ok::<
            Option<(i64, Seq<TokenView>)>,
            ParseError,
        >(Some((x, rest))),
{
    let t = seq![TokenView::ExponentMarker] + int_tokens(x) + rest;
    let m = if x < 0 {
        -(x as int)
    } else {
        x as int
    };
    lemma_dec_digits(m);
    lemma_dec_digits_value(m);
    let ds = dec_digits(m);
    lemma_digit_tokens_run(ds, rest);
    assert(t[0] == TokenView::ExponentMarker);
    if x < 0 {
        assert(t.skip(1) =~= seq![TokenView::SignNeg] + (digit_tokens(ds) + rest));
        assert(t.skip(1)[0] == TokenView::SignNeg);
        assert(t.skip(1).skip(1) =~= digit_tokens(ds) + rest);
        assert((digit_tokens(ds) + rest).skip(ds.len() as int) =~= rest);
    } else {
        assert(t.skip(1) =~= digit_tokens(ds) + rest);
        assert(t.skip(1)[0] == TokenView::Digit(ds[0]));
        assert((digit_tokens(ds) + rest).skip(ds.len() as int) =~= rest);
    }
}

/// Reading back the canonical tokens of a well-formed number gives
/// exactly that number.
proof fn lemma_number_roundtrip(n: JsonNumberView, rest: Seq<TokenView>)
    requires
        wf_number(n),
        follows_value(rest),
    ensures
        p_number(number_tokens(n) + rest) == Ok::<
            Option<(JsonNumberView, Seq<TokenView>)>,
            ParseError,
        >(Some((n, rest))),
{
    let t = number_tokens(n) + rest;
    let ft = frac_tokens(n.fraction);
    let et = exp_tokens(n.exponent);
    let rest1 = ft + (et + rest);
    let rest2 = et + rest;
    assert(t =~= int_tokens(n.integer) + rest1);
    lemma_int_roundtrip(n.integer, rest1);
    match n.fraction {
        Some(x) => {
            assert(rest1 =~= seq![TokenView::FractionMarker] + digit_tokens(dec_digits(x as int))
                + rest2);
            lemma_frac_roundtrip(x, rest2);
        },
        None => {
            assert(rest1 =~= rest2);
        },
    }
    match n.exponent {
        Some(x) => {
            assert(rest2 =~= seq![TokenView::ExponentMarker] + int_tokens(x) + rest);
            lemma_exp_roundtrip(x, rest);
        },
        None => {
            assert(rest2 =~= rest);
        },
    }
    assert(n == (JsonNumberView { integer: n.integer, fraction: n.fraction, exponent: n.exponent }));
}

/// The canonical tokens of a value are never empty.
proof fn lemma_value_tokens_len(v: JsonValueView)
    ensures
        value_tokens(v).len() >= 1,
{
    match v {
        JsonValueView::Number(n) => {
            if n.integer >= 0 {
                lemma_dec_digits(n.integer as int);
            }
        },
        _ => {},
    }
}

/// LAW — canonical round trip for values.  Parsing the canonical token
/// rendering of any well-formed value, followed by any legal
/// continuation, returns exactly that value and leaves exactly the
/// continuation.
#[verifier::rlimit(60)]
pub proof fn lemma_value_roundtrip(v: JsonValueView, rest: Seq<TokenView>)
    requires
        wf_value(v),
        follows_value(rest),
    ensures
        p_value(value_tokens(v) + rest) == Ok::<
            Option<(JsonValueView, Seq<TokenView>)>,
            ParseError,
        >(Some((v, rest))),
    decreases v,
{
    let t = value_tokens(v) + rest;
    match v {
        JsonValueView::True => {
            assert(t.skip(1) =~= rest);
        },
        JsonValueView::False => {
            assert(t.skip(1) =~= rest);
        },
        JsonValueView::Null => {
            assert(t.skip(1) =~= rest);
        },
        JsonValueView::String(s) => {
            assert(t[0] == TokenView::Str(s.string));
            assert(t.skip(1) =~= rest);
            assert(s == (JsonStringView { string: s.string }));
        },
        JsonValueView::Number(n) => {
            lemma_number_roundtrip(n, rest);
            if n.integer < 0 {
                assert(t[0] == TokenView::SignNeg);
            } else {
                lemma_dec_digits(n.integer as int);
                assert(t[0] == TokenView::Digit(dec_digits(n.integer as int)[0]));
            }
        },
        JsonValueView::Object(o) => {
            assert(decreases_to!(v => o));
            assert(decreases_to!(o => o.members));
            let ms = o.members;
            let close_rest = seq![TokenView::CloseParen] + rest;
            let inner = members_tokens(ms) + close_rest;
            assert(t[0] == TokenView::OpenParen);
            assert(t.skip(1) =~= inner);
            if ms.len() == 0 {
                assert(inner =~= close_rest);
                assert(inner[0] == TokenView::CloseParen);
                assert(inner.skip(1) =~= rest);
                assert(ms =~= Seq::<JsonMemberView>::empty());
                assert(o == (JsonObjectView { members: ms }));
            } else {
                lemma_members_roundtrip(ms, close_rest);
                assert(close_rest[0] == TokenView::CloseParen);
                assert(close_rest.skip(1) =~= rest);
                assert(o == (JsonObjectView { members: ms }));
            }
        },
        JsonValueView::Array(a) => {
            assert(decreases_to!(v => a));
            assert(decreases_to!(a => a.elements));
            let es = a.elements;
            let close_rest = seq![TokenView::CloseBracket] + rest;
            let inner = elements_tokens(es) + close_rest;
            assert(t[0] == TokenView::OpenBracket);
            assert(t.skip(1) =~= inner);
            if es.len() == 0 {
                assert(inner =~= close_rest);
                assert(inner[0] == TokenView::CloseBracket);
                assert(inner.skip(1) =~= rest);
                assert(es =~= Seq::<JsonElementView>::empty());
                assert(a == (JsonArrayView { elements: es }));
            } else {
                lemma_elements_roundtrip(es, close_rest);
                assert(close_rest[0] == TokenView::CloseBracket);
                assert(close_rest.skip(1) =~= rest);
                assert(a == (JsonArrayView { elements: es }));
            }
        },
    }
}

/// Reading back a non-empty canonical member list gives exactly that
/// list, in order.
pub proof fn lemma_members_roundtrip(ms: Seq<JsonMemberView>, rest: Seq<TokenView>)
    requires
        ms.len() >= 1,
        wf_members(ms),
        closes_group(rest),
    ensures
        p_members(members_tokens(ms) + rest) == Ok::<
            Option<(Seq<JsonMemberView>, Seq<TokenView>)>,
            ParseError,
        >(Some((ms, rest))),
    decreases ms,
{
    let tail = ms.subrange(1, ms.len() as int);
    let t = members_tokens(ms) + rest;
    let rest1 = members_sep_tokens(tail) + rest;
    assert(t =~= member_tokens(ms[0]) + rest1);
    if tail.len() == 0 {
        assert(rest1 =~= rest);
    }
    assert(decreases_to!(ms => ms[0]));
    lemma_member_roundtrip(ms[0], rest1);
    lemma_members_tail_roundtrip(seq![ms[0]], tail, rest);
    assert(seq![ms[0]] + tail =~= ms);
}

/// Reading back canonical comma-prefixed members appends exactly those
/// members, in order, to what was already read.
pub proof fn lemma_members_tail_roundtrip(
    acc: Seq<JsonMemberView>,
    ms: Seq<JsonMemberView>,
    rest: Seq<TokenView>,
)
    requires
        wf_members(ms),
        closes_group(rest),
    ensures
        p_members_tail(acc, members_sep_tokens(ms) + rest) == Ok::<
            Option<(Seq<JsonMemberView>, Seq<TokenView>)>,
            ParseError,
        >(Some((acc + ms, rest))),
    decreases ms,
{
    let t = members_sep_tokens(ms) + rest;
    if ms.len() == 0 {
        assert(t =~= rest);
        assert(acc + ms =~= acc);
    } else {
        let tail = ms.subrange(1, ms.len() as int);
        let rest1 = members_sep_tokens(tail) + rest;
        assert(t[0] == TokenView::Comma);
        assert(t.skip(1) =~= member_tokens(ms[0]) + rest1);
        if tail.len() == 0 {
            assert(rest1 =~= rest);
        }
        assert(decreases_to!(ms => ms[0]));
        lemma_member_roundtrip(ms[0], rest1);
        lemma_members_tail_roundtrip(acc.push(ms[0]), tail, rest);
        assert(acc.push(ms[0]) + tail =~= acc + ms);
    }
}

/// Reading back a canonical member gives exactly that member.
pub proof fn lemma_member_roundtrip(m: JsonMemberView, rest: Seq<TokenView>)
    requires
        wf_member(m),
        follows_value(rest),
    ensures
        p_member(member_tokens(m) + rest) == Ok::<
            Option<(JsonMemberView, Seq<TokenView>)>,
            ParseError,
        >(Some((m, rest))),
    decreases m,
{
    let t = member_tokens(m) + rest;
    assert(t[0] == TokenView::Str(m.string.string));
    assert(t[1] == TokenView::Colon);
    assert(t.skip(2) =~= element_tokens(m.element) + rest);
    lemma_element_roundtrip(m.element, rest);
    assert(m.string == (JsonStringView { string: m.string.string }));
    assert(m == (JsonMemberView { string: m.string, element: m.element }));
}

/// Reading back a non-empty canonical element list gives exactly that
/// list, in order.
pub proof fn lemma_elements_roundtrip(es: Seq<JsonElementView>, rest: Seq<TokenView>)
    requires
        es.len() >= 1,
        wf_elements(es),
        closes_group(rest),
    ensures
        p_elements(elements_tokens(es) + rest) == Ok::<
            Option<(Seq<JsonElementView>, Seq<TokenView>)>,
            ParseError,
        >(Some((es, rest))),
    decreases es,
{
    let tail = es.subrange(1, es.len() as int);
    let t = elements_tokens(es) + rest;
    let rest1 = elements_sep_tokens(tail) + rest;
    assert(t =~= element_tokens(es[0]) + rest1);
    if tail.len() == 0 {
        assert(rest1 =~= rest);
    }
    assert(decreases_to!(es => es[0]));
    lemma_element_roundtrip(es[0], rest1);
    lemma_elements_tail_roundtrip(seq![es[0]], tail, rest);
    assert(seq![es[0]] + tail =~= es);
}

/// Reading back canonical comma-prefixed elements appends exactly those
/// elements, in order, to what was already read.
pub proof fn lemma_elements_tail_roundtrip(
    acc: Seq<JsonElementView>,
    es: Seq<JsonElementView>,
    rest: Seq<TokenView>,
)
    requires
        wf_elements(es),
        closes_group(rest),
    ensures
        p_elements_tail(acc, elements_sep_tokens(es) + rest) == Ok::<
            Option<(Seq<JsonElementView>, Seq<TokenView>)>,
            ParseError,
        >(Some((acc + es, rest))),
    decreases es,
{
    let t = elements_sep_tokens(es) + rest;
    if es.len() == 0 {
        assert(t =~= rest);
        assert(acc + es =~= acc);
    } else {
        let tail = es.subrange(1, es.len() as int);
        let rest1 = elements_sep_tokens(tail) + rest;
        assert(t[0] == TokenView::Comma);
        assert(t.skip(1) =~= element_tokens(es[0]) + rest1);
        if tail.len() == 0 {
            assert(rest1 =~= rest);
        }
        assert(decreases_to!(es => es[0]));
        lemma_element_roundtrip(es[0], rest1);
        lemma_elements_tail_roundtrip(acc.push(es[0]), tail, rest);
        assert(acc.push(es[0]) + tail =~= acc + es);
    }
}

/// Reading back a canonical element gives exactly that element.
pub proof fn lemma_element_roundtrip(e: JsonElementView, rest: Seq<TokenView>)
    requires
        wf_element(e),
        follows_value(rest),
    ensures
        p_element(element_tokens(e) + rest) == Ok::<
            Option<(JsonElementView, Seq<TokenView>)>,
            ParseError,
        >(Some((e, rest))),
    decreases e,
{
    lemma_value_roundtrip(e.value, rest);
    assert(e == (JsonElementView { value: e.value }));
}

/// The token of a character that forms a token on its own.
pub open spec fn solo_token(c: char) -> TokenView {
    if c == '{' {
        TokenView::OpenParen
    } else if c == '}' {
        TokenView::CloseParen
    } else if c == '[' {
        TokenView::OpenBracket
    } else if c == ']' {
        TokenView::CloseBracket
    } else if c == ',' {
        TokenView::Comma
    } else if c == ':' {
        TokenView::Colon
    } else if c == '-' {
        TokenView::SignNeg
    } else if c == '.' {
        TokenView::FractionMarker
    } else {
        TokenView::ExponentMarker
    }
}

proof fn lemma_lex_solo(c: char)
    requires
        c == '{' || c == '}' || c == '[' || c == ']' || c == ',' || c == ':' || c == '-' || c
            == '.' || c == 'e',
    ensures
        lex_spec(seq![c]) == Ok::<Seq<TokenView>, LexError>(seq![solo_token(c)]),
{
    assert(seq![c].skip(1) =~= Seq::<char>::empty());
    assert(lex_spec(Seq::<char>::empty()) == Ok::<Seq<TokenView>, LexError>(Seq::empty()));
    assert(seq![solo_token(c)] + Seq::<TokenView>::empty() =~= seq![solo_token(c)]);
}

proof fn lemma_lex_keywords()
    ensures
        lex_spec(seq!['t', 'r', 'u', 'e']) == Ok::<Seq<TokenView>, LexError>(
            seq![TokenView::True],
        ),
        lex_spec(seq!['f', 'a', 'l', 's', 'e']) == Ok::<Seq<TokenView>, LexError>(
            seq![TokenView::False],
        ),
        lex_spec(seq!['n', 'u', 'l', 'l']) == Ok::<Seq<TokenView>, LexError>(
            seq![TokenView::Null],
        ),
{
    assert(lex_spec(Seq::<char>::empty()) == Ok::<Seq<TokenView>, LexError>(Seq::empty()));
    assert(seq!['t', 'r', 'u', 'e'].skip(4) =~= Seq::<char>::empty());
    assert(seq![TokenView::True] + Seq::<TokenView>::empty() =~= seq![TokenView::True]);
    assert(seq!['f', 'a', 'l', 's', 'e'].skip(5) =~= Seq::<char>::empty());
    assert(seq![TokenView::False] + Seq::<TokenView>::empty() =~= seq![TokenView::False]);
    assert(seq!['n', 'u', 'l', 'l'].skip(4) =~= Seq::<char>::empty());
    assert(seq![TokenView::Null] + Seq::<TokenView>::empty() =~= seq![TokenView::Null]);
}

proof fn lemma_digit_char_value(d: u8)
    requires
        d < 10,
    ensures
        char_digit(digit_char(d)) == Some(d),
{
}

/// Digit text tokenizes to the same digits, one token each.
proof fn lemma_lex_digit_chars(ds: Seq<u8>)
    requires
        forall|i: int| 0 <= i < ds.len() ==> #[trigger] ds[i] < 10,
    ensures
        lex_spec(digit_chars(ds)) == Ok::<Seq<TokenView>, LexError>(digit_tokens(ds)),
    decreases ds.len(),
{
    if ds.len() == 0 {
        assert(digit_chars(ds) =~= Seq::<char>::empty());
        assert(digit_tokens(ds) =~= Seq::<TokenView>::empty());
    } else {
        lemma_digit_char_value(ds[0]);
        let tail = ds.skip(1);
        assert forall|i: int| 0 <= i < tail.len() implies #[trigger] tail[i] < 10 by {
            assert(tail[i] == ds[i + 1]);
        }
        lemma_lex_digit_chars(tail);
        assert(digit_chars(ds)[0] == digit_char(ds[0]));
        assert(digit_chars(ds).skip(1) =~= digit_chars(tail));
        assert(seq![TokenView::Digit(ds[0])] + digit_tokens(tail) =~= digit_tokens(ds));
    }
}

/// Quoted renderable content tokenizes to one string token carrying
/// exactly that content.
proof fn lemma_lex_string_text(s: Seq<char>)
    requires
        renderable_string(s),
    ensures
        lex_spec(string_text(s)) == Ok::<Seq<TokenView>, LexError>(seq![TokenView::Str(s)]),
{
    let t = string_text(s);
    assert(t[0] == '"');
    assert(t.skip(1) =~= s + seq!['"']);
    assert(lex_spec(Seq::<char>::empty()) == Ok::<Seq<TokenView>, LexError>(Seq::empty()));
    assert(seq![TokenView::Str(s)] + Seq::<TokenView>::empty() =~= seq![TokenView::Str(s)]);
}

/// Canonical integer text tokenizes to the canonical integer tokens.
proof fn lemma_lex_int_text(v: i64)
    requires
        v != i64::MIN,
    ensures
        lex_spec(int_text(v)) == Ok::<Seq<TokenView>, LexError>(int_tokens(v)),
{
    let m = if v < 0 {
        -(v as int)
    } else {
        v as int
    };
    lemma_dec_digits(m);
    let ds = dec_digits(m);
    lemma_lex_digit_chars(ds);
    if v < 0 {
        lemma_lex_solo('-');
        lemma_lex_append(seq!['-'], digit_chars(ds));
    }
}

/// Canonical number text tokenizes to the canonical number tokens.
proof fn lemma_lex_number_text(n: JsonNumberView)
    requires
        wf_number(n),
    ensures
        lex_spec(number_text(n)) == Ok::<Seq<TokenView>, LexError>(number_tokens(n)),
{
    let it = int_text(n.integer);
    let ft = frac_text(n.fraction);
    let et = exp_text(n.exponent);
    lemma_lex_int_text(n.integer);
    match n.fraction {
        Some(x) => {
            lemma_dec_digits(x as int);
            lemma_lex_digit_chars(dec_digits(x as int));
            lemma_lex_solo('.');
            lemma_lex_append(seq!['.'], digit_chars(dec_digits(x as int)));
        },
        None => {
            assert(ft =~= Seq::<char>::empty());
            assert(frac_tokens(n.fraction) =~= Seq::<TokenView>::empty());
        },
    }
    assert(lex_spec(ft) == Ok::<Seq<TokenView>, LexError>(frac_tokens(n.fraction)));
    match n.exponent {
        Some(x) => {
            lemma_lex_int_text(x);
            lemma_lex_solo('e');
            lemma_lex_append(seq!['e'], int_text(x));
        },
        None => {
            assert(et =~= Seq::<char>::empty());
            assert(exp_tokens(n.exponent) =~= Seq::<TokenView>::empty());
        },
    }
    assert(lex_spec(et) == Ok::<Seq<TokenView>, LexError>(exp_tokens(n.exponent)));
    lemma_lex_append(ft, et);
    lemma_lex_append(it, ft + et);
    assert(number_text(n) =~= it + (ft + et));
    assert(int_tokens(n.integer) + (frac_tokens(n.fraction) + exp_tokens(n.exponent))
        =~= number_tokens(n));
}

/// Canonical value text tokenizes to the canonical value tokens.
#[verifier::rlimit(60)]
proof fn lemma_lex_value_text(v: JsonValueView)
    requires
        wf_value(v),
        renderable_value(v),
    ensures
        lex_spec(value_text(v)) == Ok::<Seq<TokenView>, LexError>(value_tokens(v)),
    decreases v,
{
    match v {
        JsonValueView::True => {
            lemma_lex_keywords();
        },
        JsonValueView::False => {
            lemma_lex_keywords();
        },
        JsonValueView::Null => {
            lemma_lex_keywords();
        },
        JsonValueView::String(s) => {
            lemma_lex_string_text(s.string);
        },
        JsonValueView::Number(n) => {
            lemma_lex_number_text(n);
        },
        JsonValueView::Object(o) => {
            assert(decreases_to!(v => o));
            assert(decreases_to!(o => o.members));
            let ms = o.members;
            lemma_lex_members_text(ms);
            lemma_lex_solo('{');
            lemma_lex_solo('}');
            lemma_lex_append(members_text(ms), seq!['}']);
            lemma_lex_append(seq!['{'], members_text(ms) + seq!['}']);
            assert(value_text(v) =~= seq!['{'] + (members_text(ms) + seq!['}']));
            assert(seq![TokenView::OpenParen] + (members_tokens(ms) + seq![TokenView::CloseParen])
                =~= value_tokens(v));
        },
        JsonValueView::Array(a) => {
            assert(decreases_to!(v => a));
            assert(decreases_to!(a => a.elements));
            let es = a.elements;
            lemma_lex_elements_text(es);
            lemma_lex_solo('[');
            lemma_lex_solo(']');
            lemma_lex_append(elements_text(es), seq![']']);
            lemma_lex_append(seq!['['], elements_text(es) + seq![']']);
            assert(value_text(v) =~= seq!['['] + (elements_text(es) + seq![']']));
            assert(seq![TokenView::OpenBracket] + (elements_tokens(es) + seq![
                TokenView::CloseBracket,
            ]) =~= value_tokens(v));
        },
    }
}

/// Canonical member-list text tokenizes to the canonical member-list
/// tokens.
proof fn lemma_lex_members_text(ms: Seq<JsonMemberView>)
    requires
        wf_members(ms),
        renderable_members(ms),
    ensures
        lex_spec(members_text(ms)) == Ok::<Seq<TokenView>, LexError>(members_tokens(ms)),
    decreases ms, 1int,
{
    if ms.len() == 0 {
        assert(members_text(ms) =~= Seq::<char>::empty());
        assert(members_tokens(ms) =~= Seq::<TokenView>::empty());
    } else {
        let tail = ms.subrange(1, ms.len() as int);
        assert(decreases_to!(ms => ms[0]));
        lemma_lex_member_text(ms[0]);
        lemma_lex_members_sep_text(tail);
        lemma_lex_append(member_text(ms[0]), members_sep_text(tail));
        assert(member_tokens(ms[0]) + members_sep_tokens(tail) =~= members_tokens(ms));
    }
}

/// Canonical comma-prefixed member text tokenizes to the canonical
/// comma-prefixed member tokens.
proof fn lemma_lex_members_sep_text(ms: Seq<JsonMemberView>)
    requires
        wf_members(ms),
        renderable_members(ms),
    ensures
        lex_spec(members_sep_text(ms)) == Ok::<Seq<TokenView>, LexError>(members_sep_tokens(ms)),
    decreases ms, 0int,
{
    if ms.len() == 0 {
        assert(members_sep_text(ms) =~= Seq::<char>::empty());
        assert(members_sep_tokens(ms) =~= Seq::<TokenView>::empty());
    } else {
        let tail = ms.subrange(1, ms.len() as int);
        assert(decreases_to!(ms => ms[0]));
        lemma_lex_solo(',');
        lemma_lex_member_text(ms[0]);
        lemma_lex_members_sep_text(tail);
        lemma_lex_append(member_text(ms[0]), members_sep_text(tail));
        lemma_lex_append(seq![','], member_text(ms[0]) + members_sep_text(tail));
        assert(members_sep_text(ms) =~= seq![','] + (member_text(ms[0]) + members_sep_text(tail)));
        assert(seq![TokenView::Comma] + (member_tokens(ms[0]) + members_sep_tokens(tail))
            =~= members_sep_tokens(ms));
    }
}

/// Canonical member text tokenizes to the canonical member tokens.
proof fn lemma_lex_member_text(m: JsonMemberView)
    requires
        wf_member(m),
        renderable_member(m),
    ensures
        lex_spec(member_text(m)) == Ok::<Seq<TokenView>, LexError>(member_tokens(m)),
    decreases m,
{
    lemma_lex_string_text(m.string.string);
    lemma_lex_solo(':');
    lemma_lex_element_text(m.element);
    lemma_lex_append(seq![':'], element_text(m.element));
    lemma_lex_append(string_text(m.string.string), seq![':'] + element_text(m.element));
    assert(member_text(m) =~= string_text(m.string.string) + (seq![':'] + element_text(m.element)));
    assert(seq![TokenView::Str(m.string.string)] + (seq![TokenView::Colon] + element_tokens(
        m.element,
    )) =~= member_tokens(m));
}

/// Canonical element-list text tokenizes to the canonical element-list
/// tokens.
proof fn lemma_lex_elements_text(es: Seq<JsonElementView>)
    requires
        wf_elements(es),
        renderable_elements(es),
    ensures
        lex_spec(elements_text(es)) == Ok::<Seq<TokenView>, LexError>(elements_tokens(es)),
    decreases es, 1int,
{
    if es.len() == 0 {
        assert(elements_text(es) =~= Seq::<char>::empty());
        assert(elements_tokens(es) =~= Seq::<TokenView>::empty());
    } else {
        let tail = es.subrange(1, es.len() as int);
        assert(decreases_to!(es => es[0]));
        lemma_lex_element_text(es[0]);
        lemma_lex_elements_sep_text(tail);
        lemma_lex_append(element_text(es[0]), elements_sep_text(tail));
        assert(element_tokens(es[0]) + elements_sep_tokens(tail) =~= elements_tokens(es));
    }
}

/// Canonical comma-prefixed element text tokenizes to the canonical
/// comma-prefixed element tokens.
proof fn lemma_lex_elements_sep_text(es: Seq<JsonElementView>)
    requires
        wf_elements(es),
        renderable_elements(es),
    ensures
        lex_spec(elements_sep_text(es)) == Ok::<Seq<TokenView>, LexError>(
            elements_sep_tokens(es),
        ),
    decreases es, 0int,
{
    if es.len() == 0 {
        assert(elements_sep_text(es) =~= Seq::<char>::empty());
        assert(elements_sep_tokens(es) =~= Seq::<TokenView>::empty());
    } else {
        let tail = es.subrange(1, es.len() as int);
        assert(decreases_to!(es => es[0]));
        lemma_lex_solo(',');
        lemma_lex_element_text(es[0]);
        lemma_lex_elements_sep_text(tail);
        lemma_lex_append(element_text(es[0]), elements_sep_text(tail));
        lemma_lex_append(seq![','], element_text(es[0]) + elements_sep_text(tail));
        assert(elements_sep_text(es) =~= seq![','] + (element_text(es[0]) + elements_sep_text(
            tail,
        )));
        assert(seq![TokenView::Comma] + (element_tokens(es[0]) + elements_sep_tokens(tail))
            =~= elements_sep_tokens(es));
    }
}

/// Canonical element text tokenizes to the canonical element tokens.
proof fn lemma_lex_element_text(e: JsonElementView)
    requires
        wf_element(e),
        renderable_element(e),
    ensures
        lex_spec(element_text(e)) == Ok::<Seq<TokenView>, LexError>(element_tokens(e)),
    decreases e,
{
    lemma_lex_value_text(e.value);
}

/// LAW — canonical text round trip.  For every well-formed tree whose
/// string contents can be written back as they stand, the canonical
/// text tokenizes to exactly the canonical tokens, and parsing those
/// tokens yields exactly the tree: tokenizing and parsing lose nothing.
pub proof fn lemma_text_roundtrip(d: JsonDataView)
    requires
        wf_doc(d),
        renderable_doc(d),
    ensures
        lex_spec(element_text(d.element)) == Ok::<Seq<TokenView>, LexError>(
            element_tokens(d.element),
        ),
        p_doc(element_tokens(d.element)) == Ok::<JsonDataView, ParseError>(d),
{
    lemma_lex_element_text(d.element);
    lemma_doc_roundtrip(d);
}

/// LAW — object text preserves members.  The canonical text of an
/// object built from any well-formed member sequence — any order, any
/// count, duplicate keys retained as distinct members — tokenizes to
/// the object's canonical tokens, and parsing them returns exactly that
/// member sequence.
pub proof fn lemma_object_text_members_preserved(ms: Seq<JsonMemberView>)
    requires
        wf_members(ms),
        renderable_members(ms),
    ensures
        ({
            let v = JsonValueView::Object(JsonObjectView { members: ms });
            lex_spec(value_text(v)) == Ok::<Seq<TokenView>, LexError>(value_tokens(v)) && p_value(
                value_tokens(v),
            ) == Ok::<Option<(JsonValueView, Seq<TokenView>)>, ParseError>(
                Some((v, Seq::empty())),
            )
        }),
{
    let v = JsonValueView::Object(JsonObjectView { members: ms });
    lemma_lex_value_text(v);
    lemma_object_members_preserved(ms);
}

/// LAW — canonical round trip for documents.  Parsing the canonical
/// token rendering of any well-formed tree yields exactly that tree:
/// nothing is lost, reordered, merged or added.
pub proof fn lemma_doc_roundtrip(d: JsonDataView)
    requires
        wf_doc(d),
    ensures
        p_doc(element_tokens(d.element)) == Ok::<JsonDataView, ParseError>(d),
{
    let t = element_tokens(d.element);
    lemma_element_roundtrip(d.element, Seq::empty());
    assert(t + Seq::<TokenView>::empty() =~= t);
    lemma_value_tokens_len(d.element.value);
    assert(d == (JsonDataView { element: d.element }));
}

/// LAW — object members are preserved.  An object built from any member
/// sequence — any order, any count, duplicate keys retained as distinct
/// members — parses from its canonical rendering back to exactly that
/// sequence.
pub proof fn lemma_object_members_preserved(ms: Seq<JsonMemberView>)
    requires
        wf_members(ms),
    ensures
        p_value(value_tokens(JsonValueView::Object(JsonObjectView { members: ms }))) == Ok::<
            Option<(JsonValueView, Seq<TokenView>)>,
            ParseError,
        >(Some((JsonValueView::Object(JsonObjectView { members: ms }), Seq::empty()))),
{
    let v = JsonValueView::Object(JsonObjectView { members: ms });
    lemma_value_roundtrip(v, Seq::empty());
    assert(value_tokens(v) + Seq::<TokenView>::empty() =~= value_tokens(v));
}

} // verus!

