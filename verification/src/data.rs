//! The token alphabet and the syntax tree, together with their
//! mathematical models.
//!
//! Each executable type has a view type whose collections are `Seq` and
//! whose text is `Seq<char>`; the specifications of the tokenizer and the
//! parser speak entirely in terms of these views.

use vstd::prelude::*;

verus! {

/// One lexical unit of JSON text.
///
/// Numbers are not lexed as a single token: a numeric literal appears in
/// the token stream as a flat run of sign, digit, fraction-marker and
/// exponent-marker tokens, which the parser reassembles.  A `Digit` token
/// carries the numeric value of the digit, `0` through `9`.  A `String`
/// token carries the text between the quotes with escape sequences
/// retained as written (backslash kept, not decoded).  `Whitespace` is
/// never emitted by the tokenizer; it exists so that the alphabet names
/// every lexical shape the tokenizer recognizes.
#[derive(PartialEq, Eq, Debug)]
pub enum Token {
    OpenParen,
    CloseParen,
    OpenBracket,
    CloseBracket,
    Comma,
    Colon,
    SignPos,
    SignNeg,
    Digit(u8),
    FractionMarker,
    ExponentMarker,
    String(String),
    True,
    False,
    Null,
    Whitespace,
}

/// The mathematical form of a token: string content is a `Seq<char>`.
pub enum TokenView {
    OpenParen,
    CloseParen,
    OpenBracket,
    CloseBracket,
    Comma,
    Colon,
    SignPos,
    SignNeg,
    Digit(u8),
    FractionMarker,
    ExponentMarker,
    Str(Seq<char>),
    True,
    False,
    Null,
    Whitespace,
}

impl View for Token {
    type V = TokenView;

    open spec fn view(&self) -> TokenView {
        match self {
            Token::OpenParen => TokenView::OpenParen,
            Token::CloseParen => TokenView::CloseParen,
            Token::OpenBracket => TokenView::OpenBracket,
            Token::CloseBracket => TokenView::CloseBracket,
            Token::Comma => TokenView::Comma,
            Token::Colon => TokenView::Colon,
            Token::SignPos => TokenView::SignPos,
            Token::SignNeg => TokenView::SignNeg,
            Token::Digit(d) => TokenView::Digit(*d),
            Token::FractionMarker => TokenView::FractionMarker,
            Token::ExponentMarker => TokenView::ExponentMarker,
            Token::String(s) => TokenView::Str(s@),
            Token::True => TokenView::True,
            Token::False => TokenView::False,
            Token::Null => TokenView::Null,
            Token::Whitespace => TokenView::Whitespace,
        }
    }
}

/// The view of a whole token sequence, element by element.
pub open spec fn tokens_view(ts: Seq<Token>) -> Seq<TokenView> {
    Seq::new(ts.len(), |i: int| ts[i]@)
}

/// A parsed document: exactly one element.
#[derive(PartialEq, Eq, Debug)]
pub struct JsonData {
    pub element: JsonElement,
}

/// One value position in the grammar.
#[derive(PartialEq, Eq, Debug)]
pub struct JsonElement {
    pub value: JsonValue,
}

/// An object: its members in source order.  Duplicate keys are retained,
/// each occurrence as a member of its own.
#[derive(PartialEq, Eq, Debug)]
pub struct JsonObject {
    pub members: Vec<JsonMember>,
}

/// A key-value pair inside an object.
#[derive(PartialEq, Eq, Debug)]
pub struct JsonMember {
    pub string: JsonString,
    pub element: JsonElement,
}

/// An array: its elements in source order.
#[derive(PartialEq, Eq, Debug)]
pub struct JsonArray {
    pub elements: Vec<JsonElement>,
}

/// A number kept decomposed, never materialized as a floating value: the
/// signed integer part, the magnitude of the fractional digit run if one
/// was written, and the signed exponent if one was written.  The count of
/// fractional digits is not tracked, so leading zeros of the fractional
/// run are not recoverable from the magnitude alone.
#[derive(PartialEq, Eq, Debug)]
pub struct JsonNumber {
    pub integer: i64,
    pub fraction: Option<u64>,
    pub exponent: Option<i64>,
}

/// A string value: the text between the quotes, escapes retained as
/// written.
#[derive(PartialEq, Eq, Debug)]
pub struct JsonString {
    pub string: String,
}

/// The tagged union of concrete JSON kinds.
#[derive(PartialEq, Eq, Debug)]
pub enum JsonValue {
    Object(JsonObject),
    Array(JsonArray),
    String(JsonString),
    Number(JsonNumber),
    True,
    False,
    Null,
}

/// Model of a document.
pub struct JsonDataView {
    pub element: JsonElementView,
}

/// Model of an element.
pub struct JsonElementView {
    pub value: JsonValueView,
}

/// Model of an object.
pub struct JsonObjectView {
    pub members: Seq<JsonMemberView>,
}

/// Model of a member.
pub struct JsonMemberView {
    pub string: JsonStringView,
    pub element: JsonElementView,
}

/// Model of an array.
pub struct JsonArrayView {
    pub elements: Seq<JsonElementView>,
}

/// Model of a number; the fields are plain machine integers, as in the
/// executable type.
pub struct JsonNumberView {
    pub integer: i64,
    pub fraction: Option<u64>,
    pub exponent: Option<i64>,
}

/// Model of a string value.
pub struct JsonStringView {
    pub string: Seq<char>,
}

/// Model of a value.
pub enum JsonValueView {
    Object(JsonObjectView),
    Array(JsonArrayView),
    String(JsonStringView),
    Number(JsonNumberView),
    True,
    False,
    Null,
}

pub open spec fn string_node_view(s: JsonString) -> JsonStringView {
    JsonStringView { string: s.string@ }
}

pub open spec fn number_view(n: JsonNumber) -> JsonNumberView {
    JsonNumberView { integer: n.integer, fraction: n.fraction, exponent: n.exponent }
}

pub open spec fn value_view(v: JsonValue) -> JsonValueView
    decreases v,
    via value_view_decreases
{
    match v {
        JsonValue::Object(o) => JsonValueView::Object(
            JsonObjectView { members: members_view(o.members@) },
        ),
        JsonValue::Array(a) => JsonValueView::Array(
            JsonArrayView { elements: elements_view(a.elements@) },
        ),
        JsonValue::String(s) => JsonValueView::String(string_node_view(s)),
        JsonValue::Number(n) => JsonValueView::Number(number_view(n)),
        JsonValue::True => JsonValueView::True,
        JsonValue::False => JsonValueView::False,
        JsonValue::Null => JsonValueView::Null,
    }
}

#[via_fn]
proof fn value_view_decreases(v: JsonValue) {
    match v {
        JsonValue::Object(o) => {
            assert(decreases_to!(v => o));
            assert(decreases_to!(o => o.members));
            assert(decreases_to!(o.members => o.members@));
        },
        JsonValue::Array(a) => {
            assert(decreases_to!(v => a));
            assert(decreases_to!(a => a.elements));
            assert(decreases_to!(a.elements => a.elements@));
        },
        _ => {},
    }
}

pub open spec fn element_view(e: JsonElement) -> JsonElementView
    decreases e,
{
    JsonElementView { value: value_view(e.value) }
}

pub open spec fn member_view(m: JsonMember) -> JsonMemberView
    decreases m,
{
    JsonMemberView { string: string_node_view(m.string), element: element_view(m.element) }
}

/// The member sequence of an object, viewed element by element.
pub open spec fn members_view(ms: Seq<JsonMember>) -> Seq<JsonMemberView>
    decreases ms,
{
    if ms.len() == 0 {
        Seq::empty()
    } else {
        seq![member_view(ms[0])] + members_view(ms.subrange(1, ms.len() as int))
    }
}

/// The element sequence of an array, viewed element by element.
pub open spec fn elements_view(es: Seq<JsonElement>) -> Seq<JsonElementView>
    decreases es,
{
    if es.len() == 0 {
        Seq::empty()
    } else {
        seq![element_view(es[0])] + elements_view(es.subrange(1, es.len() as int))
    }
}

/// `members_view` maps the sequence pointwise.
pub proof fn lemma_members_view(ms: Seq<JsonMember>)
    ensures
        members_view(ms).len() == ms.len(),
        forall|i: int| 0 <= i < ms.len() ==> members_view(ms)[i] == member_view(#[trigger] ms[i]),
    decreases ms.len(),
{
    if ms.len() > 0 {
        let tail = ms.subrange(1, ms.len() as int);
        lemma_members_view(tail);
        assert forall|i: int| 0 <= i < ms.len() implies members_view(ms)[i] == member_view(ms[i]) by {
            if i > 0 {
                assert(tail[i - 1] == ms[i]);
            }
        }
    }
}

/// `elements_view` maps the sequence pointwise.
pub proof fn lemma_elements_view(es: Seq<JsonElement>)
    ensures
        elements_view(es).len() == es.len(),
        forall|i: int| 0 <= i < es.len() ==> elements_view(es)[i] == element_view(#[trigger] es[i]),
    decreases es.len(),
{
    if es.len() > 0 {
        let tail = es.subrange(1, es.len() as int);
        lemma_elements_view(tail);
        assert forall|i: int| 0 <= i < es.len() implies elements_view(es)[i] == element_view(es[i]) by {
            if i > 0 {
                assert(tail[i - 1] == es[i]);
            }
        }
    }
}

/// Appending a member appends its view.
pub proof fn lemma_members_view_push(ms: Seq<JsonMember>, m: JsonMember)
    ensures
        members_view(ms.push(m)) == members_view(ms).push(member_view(m)),
{
    lemma_members_view(ms.push(m));
    lemma_members_view(ms);
    assert forall|i: int| 0 <= i < ms.len() + 1 implies members_view(ms.push(m))[i]
        == members_view(ms).push(member_view(m))[i] by {
        assert(ms.push(m)[i] == if i < ms.len() { ms[i] } else { m });
    }
    assert(members_view(ms.push(m)) =~= members_view(ms).push(member_view(m)));
}

/// Appending an element appends its view.
pub proof fn lemma_elements_view_push(es: Seq<JsonElement>, e: JsonElement)
    ensures
        elements_view(es.push(e)) == elements_view(es).push(element_view(e)),
{
    lemma_elements_view(es.push(e));
    lemma_elements_view(es);
    assert forall|i: int| 0 <= i < es.len() + 1 implies elements_view(es.push(e))[i]
        == elements_view(es).push(element_view(e))[i] by {
        assert(es.push(e)[i] == if i < es.len() { es[i] } else { e });
    }
    assert(elements_view(es.push(e)) =~= elements_view(es).push(element_view(e)));
}

impl View for JsonValue {
    type V = JsonValueView;

    open spec fn view(&self) -> JsonValueView {
        value_view(*self)
    }
}

impl View for JsonElement {
    type V = JsonElementView;

    open spec fn view(&self) -> JsonElementView {
        element_view(*self)
    }
}

impl View for JsonMember {
    type V = JsonMemberView;

    open spec fn view(&self) -> JsonMemberView {
        member_view(*self)
    }
}

impl View for JsonData {
    type V = JsonDataView;

    open spec fn view(&self) -> JsonDataView {
        JsonDataView { element: element_view(self.element) }
    }
}

impl View for JsonObject {
    type V = JsonObjectView;

    open spec fn view(&self) -> JsonObjectView {
        JsonObjectView { members: members_view(self.members@) }
    }
}

impl View for JsonArray {
    type V = JsonArrayView;

    open spec fn view(&self) -> JsonArrayView {
        JsonArrayView { elements: elements_view(self.elements@) }
    }
}

impl View for JsonNumber {
    type V = JsonNumberView;

    open spec fn view(&self) -> JsonNumberView {
        number_view(*self)
    }
}

impl View for JsonString {
    type V = JsonStringView;

    open spec fn view(&self) -> JsonStringView {
        string_node_view(*self)
    }
}

} // verus!
