//! The recursive-descent parser: token sequence in, syntax tree out.
//!
//! One function per grammar nonterminal; each consumes tokens from the
//! front of the remaining sequence and either returns a node together
//! with what is left, reports that no node of its kind starts here, or
//! fails with the first grammar violation.  The `p_*` functions are the
//! mathematical parser over `Seq<TokenView>`; the executable functions
//! walk a `Vec<Token>` with a cursor and are proved to agree with the
//! model on every token sequence.

use vstd::prelude::*;
use vstd::seq_lib::lemma_seq_skip_of_skip;
use crate::data::{
    Token, TokenView, tokens_view, JsonData, JsonElement, JsonObject, JsonMember, JsonArray,
    JsonNumber, JsonString, JsonValue, JsonDataView, JsonElementView, JsonObjectView,
    JsonMemberView, JsonArrayView, JsonNumberView, JsonStringView, JsonValueView, members_view,
    elements_view, member_view, element_view, value_view, number_view, string_node_view,
    lemma_members_view_push, lemma_elements_view_push,
};

verus! {

/// A grammar error: the first violation found by the recursive descent,
/// outermost to innermost, left to right.
#[derive(PartialEq, Eq, Debug, Clone, Copy)]
pub enum ParseError {
    /// The token sequence is empty.
    EmptyInput,
    /// No value starts at the top of the document.
    NoElement,
    /// Tokens remain after the one top-level element.
    TrailingData,
    /// An object is not closed by `}` after its members.
    UnclosedObject,
    /// An array is not closed by `]` after its elements.
    UnclosedArray,
    /// A member's key is not followed by `:`.
    MissingColon,
    /// A member's colon is not followed by a value.
    NoElementForKey,
    /// A comma inside an object is not followed by a member.
    MembersFailed,
    /// A comma inside an array is not followed by an element.
    ElementsFailed,
    /// An integer part of more than one digit starts with `0`.
    LeadingZero,
    /// A digit run exceeds the 64-bit range of its number part.
    IntegerOverflow,
    /// A sign is not followed by a digit.
    NoDigitsAfterSign,
    /// A fraction marker is not followed by a digit.
    NoDigitsAfterFractionMarker,
    /// An exponent marker is not followed by a digit.
    NoDigitsAfterExponent,
}

impl ParseError {
    /// The description `message` returns, as a character sequence.
    pub open spec fn spec_message(self) -> Seq<char> {
        match self {
            ParseError::EmptyInput => "Empty Json"@,
            ParseError::NoElement => "Invalid Json: No Element"@,
            ParseError::TrailingData => "Invalid Json: Additional Data Left Over"@,
            ParseError::UnclosedObject => "No Closing Paren on Object"@,
            ParseError::UnclosedArray => "No Closing Bracket on Array"@,
            ParseError::MissingColon => "No colon in member"@,
            ParseError::NoElementForKey => "No element for string"@,
            ParseError::MembersFailed => "Failed to parse members"@,
            ParseError::ElementsFailed => "Failed to parse element"@,
            ParseError::LeadingZero => "No leading zeros allowed"@,
            ParseError::IntegerOverflow => "Integer Overflow"@,
            ParseError::NoDigitsAfterSign => "No digits following sign"@,
            ParseError::NoDigitsAfterFractionMarker => "No fraction component after fraction marker"@,
            ParseError::NoDigitsAfterExponent => "No digits following exponent"@,
        }
    }

    /// A human-readable description of the error.
    pub fn message(&self) -> (r: String)
        ensures
            r@ == self.spec_message(),
    {
        match self {
            ParseError::EmptyInput => "Empty Json".to_owned(),
            ParseError::NoElement => "Invalid Json: No Element".to_owned(),
            ParseError::TrailingData => "Invalid Json: Additional Data Left Over".to_owned(),
            ParseError::UnclosedObject => "No Closing Paren on Object".to_owned(),
            ParseError::UnclosedArray => "No Closing Bracket on Array".to_owned(),
            ParseError::MissingColon => "No colon in member".to_owned(),
            ParseError::NoElementForKey => "No element for string".to_owned(),
            ParseError::MembersFailed => "Failed to parse members".to_owned(),
            ParseError::ElementsFailed => "Failed to parse element".to_owned(),
            ParseError::LeadingZero => "No leading zeros allowed".to_owned(),
            ParseError::IntegerOverflow => "Integer Overflow".to_owned(),
            ParseError::NoDigitsAfterSign => "No digits following sign".to_owned(),
            ParseError::NoDigitsAfterFractionMarker => {
                "No fraction component after fraction marker".to_owned()
            },
            ParseError::NoDigitsAfterExponent => "No digits following exponent".to_owned(),
        }
    }
}

/// The numeric value a digit token carries; zero on every other token.
pub open spec fn digit_val(t: TokenView) -> int {
    match t {
        TokenView::Digit(d) => d as int,
        _ => 0,
    }
}

/// The length of the run of digit tokens at the front of the sequence.
pub open spec fn digit_run_len(t: Seq<TokenView>) -> nat
    decreases t.len(),
{
    if t.len() > 0 && t[0] is Digit {
        1 + digit_run_len(t.skip(1))
    } else {
        0
    }
}

/// The value of the first `n` tokens read as a decimal digit run,
/// most significant digit first.
pub open spec fn digit_run_value(t: Seq<TokenView>, n: int) -> int
    decreases n,
{
    if n <= 0 {
        0
    } else {
        digit_run_value(t, n - 1) * 10 + digit_val(t[n - 1])
    }
}

/// The digit run is exactly the maximal digit prefix.
pub proof fn lemma_digit_run_len(t: Seq<TokenView>)
    ensures
        digit_run_len(t) <= t.len(),
        forall|j: int| 0 <= j < digit_run_len(t) ==> (#[trigger] t[j]) is Digit,
        digit_run_len(t) < t.len() ==> !(t[digit_run_len(t) as int] is Digit),
    decreases t.len(),
{
    if t.len() > 0 && t[0] is Digit {
        lemma_digit_run_len(t.skip(1));
        let rest = t.skip(1);
        assert forall|j: int| 0 <= j < digit_run_len(t) implies (#[trigger] t[j]) is Digit by {
            if j > 0 {
                assert(rest[j - 1] == t[j]);
            }
        }
        if digit_run_len(t) < t.len() {
            assert(rest[digit_run_len(t) as int - 1] == t[digit_run_len(t) as int]);
        }
    }
}

/// Digit-run values are never negative.
pub proof fn lemma_digit_run_value_nonneg(t: Seq<TokenView>, n: int)
    ensures
        digit_run_value(t, n) >= 0,
    decreases n,
{
    if n > 0 {
        lemma_digit_run_value_nonneg(t, n - 1);
    }
}

/// Reading more digits never shrinks the value.
pub proof fn lemma_digit_run_value_mono(t: Seq<TokenView>, m: int, n: int)
    requires
        0 <= m <= n,
    ensures
        digit_run_value(t, m) <= digit_run_value(t, n),
    decreases n,
{
    if m < n {
        lemma_digit_run_value_mono(t, m, n - 1);
        lemma_digit_run_value_nonneg(t, n - 1);
    }
}

/// The integer part: an optional leading minus sign, then one or more
/// digits.  A plus sign is not accepted here.  A multi-digit run may not
/// start with `0`, and the magnitude must stay within the signed 64-bit
/// range.
pub open spec fn p_integer(t: Seq<TokenView>) -> Result<
    Option<(i64, Seq<TokenView>)>,
    ParseError,
> {
    let neg = t.len() > 0 && t[0] is SignNeg;
    let t1 = if neg { t.skip(1) } else { t };
    let n = digit_run_len(t1) as int;
    if n == 0 {
        if neg {
            Err(ParseError::NoDigitsAfterSign)
        } else {
            Ok(None)
        }
    } else if n > 1 && digit_val(t1[0]) == 0 {
        Err(ParseError::LeadingZero)
    } else if digit_run_value(t1, n) > i64::MAX {
        Err(ParseError::IntegerOverflow)
    } else {
        let v = digit_run_value(t1, n);
        Ok(Some(((if neg { -v } else { v }) as i64, t1.skip(n))))
    }
}

/// The fraction part: a fraction marker, then one or more digits whose
/// magnitude must fit in an unsigned 64-bit value.
pub open spec fn p_fraction(t: Seq<TokenView>) -> Result<
    Option<(u64, Seq<TokenView>)>,
    ParseError,
> {
    if t.len() > 0 && t[0] is FractionMarker {
        let t1 = t.skip(1);
        let n = digit_run_len(t1) as int;
        if n == 0 {
            Err(ParseError::NoDigitsAfterFractionMarker)
        } else if digit_run_value(t1, n) > u64::MAX {
            Err(ParseError::IntegerOverflow)
        } else {
            Ok(Some((digit_run_value(t1, n) as u64, t1.skip(n))))
        }
    } else {
        Ok(None)
    }
}

/// The exponent part: an exponent marker, an optional sign of either
/// kind, then one or more digits whose magnitude must stay within the
/// signed 64-bit range.
pub open spec fn p_exponent(t: Seq<TokenView>) -> Result<
    Option<(i64, Seq<TokenView>)>,
    ParseError,
> {
    if t.len() > 0 && t[0] is ExponentMarker {
        let t1 = t.skip(1);
        let neg = t1.len() > 0 && t1[0] is SignNeg;
        let signed = neg || (t1.len() > 0 && t1[0] is SignPos);
        let t2 = if signed { t1.skip(1) } else { t1 };
        let n = digit_run_len(t2) as int;
        if n == 0 {
            if signed {
                Err(ParseError::NoDigitsAfterSign)
            } else {
                Err(ParseError::NoDigitsAfterExponent)
            }
        } else if digit_run_value(t2, n) > i64::MAX {
            Err(ParseError::IntegerOverflow)
        } else {
            let v = digit_run_value(t2, n);
            Ok(Some(((if neg { -v } else { v }) as i64, t2.skip(n))))
        }
    } else {
        Ok(None)
    }
}

/// A number: a required integer part, an optional fraction, an optional
/// exponent, in that order.
pub open spec fn p_number(t: Seq<TokenView>) -> Result<
    Option<(JsonNumberView, Seq<TokenView>)>,
    ParseError,
> {
    match p_integer(t) {
        Err(e) => Err(e),
        Ok(None) => Ok(None),
        Ok(Some(ip)) => match p_fraction(ip.1) {
            Err(e) => Err(e),
            Ok(fopt) => {
                let fraction = match fopt {
                    Some(fp) => Some(fp.0),
                    None => None,
                };
                let r2 = match fopt {
                    Some(fp) => fp.1,
                    None => ip.1,
                };
                match p_exponent(r2) {
                    Err(e) => Err(e),
                    Ok(eopt) => {
                        let exponent = match eopt {
                            Some(ep) => Some(ep.0),
                            None => None,
                        };
                        let r3 = match eopt {
                            Some(ep) => ep.1,
                            None => r2,
                        };
                        Ok(
                            Some(
                                (
                                    JsonNumberView { integer: ip.0, fraction, exponent },
                                    r3,
                                ),
                            ),
                        )
                    },
                }
            },
        },
    }
}

/// A string value: exactly one string token.
pub open spec fn p_string(t: Seq<TokenView>) -> Option<(JsonStringView, Seq<TokenView>)> {
    if t.len() > 0 && t[0] is Str {
        Some((JsonStringView { string: t[0]->Str_0 }, t.skip(1)))
    } else {
        None
    }
}

/// An element: exactly one value.
pub open spec fn p_element(t: Seq<TokenView>) -> Result<
    Option<(JsonElementView, Seq<TokenView>)>,
    ParseError,
>
    decreases t.len(), 6int,
{
    match p_value(t) {
        Err(e) => Err(e),
        Ok(None) => Ok(None),
        Ok(Some(p)) => Ok(Some((JsonElementView { value: p.0 }, p.1))),
    }
}

/// A value, tried in this order: the literals `true`, `false`, `null`;
/// an object; an array; a string; a number.  No match is no value.
pub open spec fn p_value(t: Seq<TokenView>) -> Result<
    Option<(JsonValueView, Seq<TokenView>)>,
    ParseError,
>
    decreases t.len(), 5int,
{
    if t.len() > 0 && t[0] is True {
        Ok(Some((JsonValueView::True, t.skip(1))))
    } else if t.len() > 0 && t[0] is False {
        Ok(Some((JsonValueView::False, t.skip(1))))
    } else if t.len() > 0 && t[0] is Null {
        Ok(Some((JsonValueView::Null, t.skip(1))))
    } else {
        match p_object(t) {
            Err(e) => Err(e),
            Ok(Some(p)) => Ok(Some((JsonValueView::Object(p.0), p.1))),
            Ok(None) => match p_array(t) {
                Err(e) => Err(e),
                Ok(Some(p)) => Ok(Some((JsonValueView::Array(p.0), p.1))),
                Ok(None) => match p_string(t) {
                    Some(p) => Ok(Some((JsonValueView::String(p.0), p.1))),
                    None => match p_number(t) {
                        Err(e) => Err(e),
                        Ok(Some(p)) => Ok(Some((JsonValueView::Number(p.0), p.1))),
                        Ok(None) => Ok(None),
                    },
                },
            },
        }
    }
}

/// An object: `{`, optional members, `}`.
pub open spec fn p_object(t: Seq<TokenView>) -> Result<
    Option<(JsonObjectView, Seq<TokenView>)>,
    ParseError,
>
    decreases t.len(), 4int,
{
    if t.len() > 0 && t[0] is OpenParen {
        let inner = t.skip(1);
        match p_members(inner) {
            Err(e) => Err(e),
            Ok(opt) => {
                let ms = match opt {
                    Some(p) => p.0,
                    None => Seq::empty(),
                };
                let rest = match opt {
                    Some(p) => p.1,
                    None => inner,
                };
                if rest.len() > 0 && rest[0] is CloseParen {
                    Ok(Some((JsonObjectView { members: ms }, rest.skip(1))))
                } else {
                    Err(ParseError::UnclosedObject)
                }
            },
        }
    } else {
        Ok(None)
    }
}

/// An array: `[`, optional elements, `]`.
pub open spec fn p_array(t: Seq<TokenView>) -> Result<
    Option<(JsonArrayView, Seq<TokenView>)>,
    ParseError,
>
    decreases t.len(), 4int,
{
    if t.len() > 0 && t[0] is OpenBracket {
        let inner = t.skip(1);
        match p_elements(inner) {
            Err(e) => Err(e),
            Ok(opt) => {
                let es = match opt {
                    Some(p) => p.0,
                    None => Seq::empty(),
                };
                let rest = match opt {
                    Some(p) => p.1,
                    None => inner,
                };
                if rest.len() > 0 && rest[0] is CloseBracket {
                    Ok(Some((JsonArrayView { elements: es }, rest.skip(1))))
                } else {
                    Err(ParseError::UnclosedArray)
                }
            },
        }
    } else {
        Ok(None)
    }
}

/// One or more members separated by commas; no trailing comma.
pub open spec fn p_members(t: Seq<TokenView>) -> Result<
    Option<(Seq<JsonMemberView>, Seq<TokenView>)>,
    ParseError,
>
    decreases t.len(), 3int,
{
    match p_member(t) {
        Err(e) => Err(e),
        Ok(None) => Ok(None),
        // The length test only makes the recursion well founded; it always
        // passes, since a successful member consumes tokens (lemma_member_rest).
        Ok(Some(p)) => if p.1.len() <= t.len() {
            p_members_tail(seq![p.0], p.1)
        } else {
            arbitrary()
        },
    }
}

/// The members after the first: as long as a comma follows, another
/// member must follow it.
pub open spec fn p_members_tail(acc: Seq<JsonMemberView>, t: Seq<TokenView>) -> Result<
    Option<(Seq<JsonMemberView>, Seq<TokenView>)>,
    ParseError,
>
    decreases t.len(), 2int,
{
    if t.len() > 0 && t[0] is Comma {
        match p_member(t.skip(1)) {
            Err(e) => Err(e),
            Ok(None) => Err(ParseError::MembersFailed),
            // As in p_members, the length test only makes the recursion well
            // founded and always passes.
            Ok(Some(p)) => if p.1.len() < t.len() {
                p_members_tail(acc.push(p.0), p.1)
            } else {
                arbitrary()
            },
        }
    } else {
        Ok(Some((acc, t)))
    }
}

/// A member: a string key, a colon, an element.
pub open spec fn p_member(t: Seq<TokenView>) -> Result<
    Option<(JsonMemberView, Seq<TokenView>)>,
    ParseError,
>
    decreases t.len(), 1int,
{
    match p_string(t) {
        None => Ok(None),
        Some(sp) => if t.len() >= 2 && t[1] is Colon {
            match p_element(t.skip(2)) {
                Err(e) => Err(e),
                Ok(None) => Err(ParseError::NoElementForKey),
                Ok(Some(ep)) => Ok(Some((JsonMemberView { string: sp.0, element: ep.0 }, ep.1))),
            }
        } else {
            Err(ParseError::MissingColon)
        },
    }
}

/// One or more elements separated by commas; no trailing comma.
pub open spec fn p_elements(t: Seq<TokenView>) -> Result<
    Option<(Seq<JsonElementView>, Seq<TokenView>)>,
    ParseError,
>
    decreases t.len(), 8int,
{
    match p_element(t) {
        Err(e) => Err(e),
        Ok(None) => Ok(None),
        // The length test only makes the recursion well founded; it always
        // passes, since a successful element consumes tokens (lemma_element_rest).
        Ok(Some(p)) => if p.1.len() <= t.len() {
            p_elements_tail(seq![p.0], p.1)
        } else {
            arbitrary()
        },
    }
}

/// The elements after the first: as long as a comma follows, another
/// element must follow it.
pub open spec fn p_elements_tail(acc: Seq<JsonElementView>, t: Seq<TokenView>) -> Result<
    Option<(Seq<JsonElementView>, Seq<TokenView>)>,
    ParseError,
>
    decreases t.len(), 7int,
{
    if t.len() > 0 && t[0] is Comma {
        match p_element(t.skip(1)) {
            Err(e) => Err(e),
            Ok(None) => Err(ParseError::ElementsFailed),
            // As in p_elements, the length test only makes the recursion well
            // founded and always passes.
            Ok(Some(p)) => if p.1.len() < t.len() {
                p_elements_tail(acc.push(p.0), p.1)
            } else {
                arbitrary()
            },
        }
    } else {
        Ok(Some((acc, t)))
    }
}

/// A successful integer part consumes at least one token.
pub proof fn lemma_integer_rest(t: Seq<TokenView>)
    ensures
        p_integer(t) matches Ok(Some(p)) ==> p.1.len() < t.len(),
{
    let neg = t.len() > 0 && t[0] is SignNeg;
    let t1 = if neg { t.skip(1) } else { t };
    lemma_digit_run_len(t1);
}

/// A successful fraction part consumes at least one token.
pub proof fn lemma_fraction_rest(t: Seq<TokenView>)
    ensures
        p_fraction(t) matches Ok(Some(p)) ==> p.1.len() < t.len(),
{
    if t.len() > 0 && t[0] is FractionMarker {
        lemma_digit_run_len(t.skip(1));
    }
}

/// A successful exponent part consumes at least one token.
pub proof fn lemma_exponent_rest(t: Seq<TokenView>)
    ensures
        p_exponent(t) matches Ok(Some(p)) ==> p.1.len() < t.len(),
{
    if t.len() > 0 && t[0] is ExponentMarker {
        let t1 = t.skip(1);
        let neg = t1.len() > 0 && t1[0] is SignNeg;
        let signed = neg || (t1.len() > 0 && t1[0] is SignPos);
        let t2 = if signed { t1.skip(1) } else { t1 };
        lemma_digit_run_len(t2);
    }
}

/// A successful number consumes at least one token.
pub proof fn lemma_number_rest(t: Seq<TokenView>)
    ensures
        p_number(t) matches Ok(Some(p)) ==> p.1.len() < t.len(),
{
    lemma_integer_rest(t);
    match p_integer(t) {
        Ok(Some(ip)) => {
            lemma_fraction_rest(ip.1);
            match p_fraction(ip.1) {
                Ok(Some(fp)) => {
                    lemma_exponent_rest(fp.1);
                },
                Ok(None) => {
                    lemma_exponent_rest(ip.1);
                },
                Err(_) => {},
            }
        },
        _ => {},
    }
}

/// A successful member consumes at least its key, colon and value.
pub proof fn lemma_member_rest(t: Seq<TokenView>)
    ensures
        p_member(t) matches Ok(Some(p)) ==> p.1.len() + 3 <= t.len(),
    decreases t.len(), 1int,
{
    match p_string(t) {
        None => {},
        Some(_) => {
            if t.len() >= 2 && t[1] is Colon {
                lemma_element_rest(t.skip(2));
            }
        },
    }
}

/// The member tail never lengthens the remaining sequence.
pub proof fn lemma_members_tail_rest(acc: Seq<JsonMemberView>, t: Seq<TokenView>)
    ensures
        p_members_tail(acc, t) matches Ok(Some(p)) ==> p.1.len() <= t.len(),
    decreases t.len(), 2int,
{
    if t.len() > 0 && t[0] is Comma {
        lemma_member_rest(t.skip(1));
        match p_member(t.skip(1)) {
            Ok(Some(p)) => {
                lemma_members_tail_rest(acc.push(p.0), p.1);
            },
            _ => {},
        }
    }
}

/// Successful members consume at least one member.
pub proof fn lemma_members_rest(t: Seq<TokenView>)
    ensures
        p_members(t) matches Ok(Some(p)) ==> p.1.len() < t.len(),
    decreases t.len(), 3int,
{
    lemma_member_rest(t);
    match p_member(t) {
        Ok(Some(p)) => {
            lemma_members_tail_rest(seq![p.0], p.1);
        },
        _ => {},
    }
}

/// A successful object consumes at least its braces.
pub proof fn lemma_object_rest(t: Seq<TokenView>)
    ensures
        p_object(t) matches Ok(Some(p)) ==> p.1.len() < t.len(),
    decreases t.len(), 4int,
{
    if t.len() > 0 && t[0] is OpenParen {
        lemma_members_rest(t.skip(1));
    }
}

/// A successful array consumes at least its brackets.
pub proof fn lemma_array_rest(t: Seq<TokenView>)
    ensures
        p_array(t) matches Ok(Some(p)) ==> p.1.len() < t.len(),
    decreases t.len(), 4int,
{
    if t.len() > 0 && t[0] is OpenBracket {
        lemma_elements_rest(t.skip(1));
    }
}

/// A successful value consumes at least one token.
pub proof fn lemma_value_rest(t: Seq<TokenView>)
    ensures
        p_value(t) matches Ok(Some(p)) ==> p.1.len() < t.len(),
    decreases t.len(), 5int,
{
    lemma_object_rest(t);
    lemma_array_rest(t);
    lemma_number_rest(t);
}

/// A successful element consumes at least one token.
pub proof fn lemma_element_rest(t: Seq<TokenView>)
    ensures
        p_element(t) matches Ok(Some(p)) ==> p.1.len() < t.len(),
    decreases t.len(), 6int,
{
    lemma_value_rest(t);
}

/// The element tail never lengthens the remaining sequence.
pub proof fn lemma_elements_tail_rest(acc: Seq<JsonElementView>, t: Seq<TokenView>)
    ensures
        p_elements_tail(acc, t) matches Ok(Some(p)) ==> p.1.len() <= t.len(),
    decreases t.len(), 7int,
{
    if t.len() > 0 && t[0] is Comma {
        lemma_element_rest(t.skip(1));
        match p_element(t.skip(1)) {
            Ok(Some(p)) => {
                lemma_elements_tail_rest(acc.push(p.0), p.1);
            },
            _ => {},
        }
    }
}

/// Successful elements consume at least one element.
pub proof fn lemma_elements_rest(t: Seq<TokenView>)
    ensures
        p_elements(t) matches Ok(Some(p)) ==> p.1.len() < t.len(),
    decreases t.len(), 8int,
{
    lemma_element_rest(t);
    match p_element(t) {
        Ok(Some(p)) => {
            lemma_elements_tail_rest(seq![p.0], p.1);
        },
        _ => {},
    }
}

/// A document: a non-empty token sequence holding exactly one element
/// and nothing after it.
pub open spec fn p_doc(t: Seq<TokenView>) -> Result<JsonDataView, ParseError> {
    if t.len() == 0 {
        Err(ParseError::EmptyInput)
    } else {
        match p_element(t) {
            Err(e) => Err(e),
            Ok(None) => Err(ParseError::NoElement),
            Ok(Some(p)) => if p.1.len() == 0 {
                Ok(JsonDataView { element: p.0 })
            } else {
                Err(ParseError::TrailingData)
            },
        }
    }
}

/// Consume the digit run starting at `start`, accumulating its decimal
/// value within the signed 64-bit range.  Returns the value and the run
/// length, or the error the run carries: a forbidden leading zero (when
/// asked to reject one), else an overflowing magnitude.
fn scan_digits_i64(tokens: &Vec<Token>, start: usize, reject_leading_zero: bool) -> (r: Result<
    (i64, usize),
    ParseError,
>)
    requires
        start <= tokens@.len(),
    ensures
        ({
            let t1 = tokens_view(tokens@).skip(start as int);
            let n = digit_run_len(t1) as int;
            match r {
                Ok(p) => p.1 == n && digit_run_value(t1, n) <= i64::MAX && p.0 == digit_run_value(
                    t1,
                    n,
                ) && (reject_leading_zero && n > 1 ==> digit_val(t1[0]) != 0),
                Err(e) => (e == ParseError::LeadingZero && reject_leading_zero && n > 1
                    && digit_val(t1[0]) == 0) || (e == ParseError::IntegerOverflow
                    && digit_run_value(t1, n) > i64::MAX && !(reject_leading_zero && n > 1
                    && digit_val(t1[0]) == 0)),
            }
        }),
{
    let ghost tv = tokens_view(tokens@);
    let ghost t1 = tv.skip(start as int);
    let n = tokens.len();
    let mut j = start;
    let mut count: usize = 0;
    let mut val: i64 = 0;
    let mut first_zero = false;
    loop
        invariant
            start <= j <= n,
            n == tokens@.len(),
            j == start + count,
            tv == tokens_view(tokens@),
            t1 == tv.skip(start as int),
            count <= digit_run_len(t1),
            val == digit_run_value(t1, count as int),
            0 <= val <= i64::MAX,
            first_zero == (count >= 1 && digit_val(t1[0]) == 0),
            reject_leading_zero && first_zero ==> count <= 1,
        ensures
            start <= j <= n,
            j == start + count,
            count == digit_run_len(t1),
            val == digit_run_value(t1, count as int),
            0 <= val <= i64::MAX,
            reject_leading_zero && count > 1 ==> digit_val(t1[0]) != 0,
        decreases n - j,
    {
        proof {
            lemma_digit_run_len(t1);
        }
        if j == n {
            break;
        }
        let mut d: u8 = 0;
        let mut is_digit = false;
        match &tokens[j] {
            Token::Digit(dd) => {
                d = *dd;
                is_digit = true;
            },
            _ => {},
        }
        proof {
            assert(t1[count as int] == tv[j as int]);
        }
        if !is_digit {
            break;
        }
        if first_zero && reject_leading_zero {
            return Err(ParseError::LeadingZero);
        }
        let next = match val.checked_mul(10) {
            Some(x) => x.checked_add(d as i64),
            None => None,
        };
        match next {
            None => {
                proof {
                    lemma_digit_run_value_nonneg(t1, count as int);
                    assert(digit_run_value(t1, count as int + 1) > i64::MAX);
                    lemma_digit_run_value_mono(t1, count as int + 1, digit_run_len(t1) as int);
                }
                return Err(ParseError::IntegerOverflow);
            },
            Some(x) => {
                if count == 0 && d == 0 {
                    first_zero = true;
                }
                val = x;
                count = count + 1;
                j = j + 1;
            },
        }
    }
    proof {
        lemma_digit_run_len(t1);
    }
    Ok((val, count))
}

/// Consume the digit run starting at `start`, accumulating its decimal
/// value within the unsigned 64-bit range.  Returns the value and the
/// run length, or the overflow error.
fn scan_digits_u64(tokens: &Vec<Token>, start: usize) -> (r: Result<(u64, usize), ParseError>)
    requires
        start <= tokens@.len(),
    ensures
        ({
            let t1 = tokens_view(tokens@).skip(start as int);
            let n = digit_run_len(t1) as int;
            match r {
                Ok(p) => p.1 == n && digit_run_value(t1, n) <= u64::MAX && p.0 == digit_run_value(
                    t1,
                    n,
                ),
                Err(e) => e == ParseError::IntegerOverflow && digit_run_value(t1, n) > u64::MAX,
            }
        }),
{
    let ghost tv = tokens_view(tokens@);
    let ghost t1 = tv.skip(start as int);
    let n = tokens.len();
    let mut j = start;
    let mut count: usize = 0;
    let mut val: u64 = 0;
    loop
        invariant
            start <= j <= n,
            n == tokens@.len(),
            j == start + count,
            tv == tokens_view(tokens@),
            t1 == tv.skip(start as int),
            count <= digit_run_len(t1),
            val == digit_run_value(t1, count as int),
            val <= u64::MAX,
        ensures
            count == digit_run_len(t1),
            val == digit_run_value(t1, count as int),
            val <= u64::MAX,
        decreases n - j,
    {
        proof {
            lemma_digit_run_len(t1);
        }
        if j == n {
            break;
        }
        let mut d: u8 = 0;
        let mut is_digit = false;
        match &tokens[j] {
            Token::Digit(dd) => {
                d = *dd;
                is_digit = true;
            },
            _ => {},
        }
        proof {
            assert(t1[count as int] == tv[j as int]);
        }
        if !is_digit {
            break;
        }
        let next = match val.checked_mul(10) {
            Some(x) => x.checked_add(d as u64),
            None => None,
        };
        match next {
            None => {
                proof {
                    lemma_digit_run_value_nonneg(t1, count as int);
                    assert(digit_run_value(t1, count as int + 1) > u64::MAX);
                    lemma_digit_run_value_mono(t1, count as int + 1, digit_run_len(t1) as int);
                }
                return Err(ParseError::IntegerOverflow);
            },
            Some(x) => {
                val = x;
                count = count + 1;
                j = j + 1;
            },
        }
    }
    proof {
        lemma_digit_run_len(t1);
    }
    Ok((val, count))
}

/// The integer part at the cursor, as `p_integer` says.
fn parse_integer(tokens: &Vec<Token>, i: usize) -> (r: (Result<Option<i64>, ParseError>, usize))
    requires
        i <= tokens@.len(),
    ensures
        ({
            let t = tokens_view(tokens@).skip(i as int);
            match p_integer(t) {
                Err(e) => r.0 == Err::<Option<i64>, ParseError>(e),
                Ok(None) => r.0 == Ok::<Option<i64>, ParseError>(None) && r.1 == i,
                Ok(Some(p)) => r.0 == Ok::<Option<i64>, ParseError>(Some(p.0)) && i <= r.1
                    <= tokens@.len() && p.1 == tokens_view(tokens@).skip(r.1 as int),
            }
        }),
{
    let ghost tv = tokens_view(tokens@);
    let ghost t = tv.skip(i as int);
    let n = tokens.len();
    let mut j = i;
    let mut neg = false;
    if j < n && matches!(&tokens[j], Token::SignNeg) {
        neg = true;
        j = j + 1;
    }
    proof {
        lemma_seq_skip_of_skip(tv, i as int, 1);
        assert(tv.skip(j as int) == (if neg { t.skip(1) } else { t }));
    }
    let run = scan_digits_i64(tokens, j, true);
    match run {
        Err(e) => (Err(e), j),
        Ok((v, count)) => {
            if count == 0 {
                if neg {
                    (Err(ParseError::NoDigitsAfterSign), j)
                } else {
                    (Ok(None), i)
                }
            } else {
                proof {
                    lemma_digit_run_len(tv.skip(j as int));
                    lemma_digit_run_value_nonneg(
                        tv.skip(j as int),
                        digit_run_len(tv.skip(j as int)) as int,
                    );
                    lemma_seq_skip_of_skip(tv, j as int, count as int);
                }
                let value = if neg {
                    -v
                } else {
                    v
                };
                (Ok(Some(value)), j + count)
            }
        },
    }
}

/// The fraction part at the cursor, as `p_fraction` says.
fn parse_fraction(tokens: &Vec<Token>, i: usize) -> (r: (Result<Option<u64>, ParseError>, usize))
    requires
        i <= tokens@.len(),
    ensures
        ({
            let t = tokens_view(tokens@).skip(i as int);
            match p_fraction(t) {
                Err(e) => r.0 == Err::<Option<u64>, ParseError>(e),
                Ok(None) => r.0 == Ok::<Option<u64>, ParseError>(None) && r.1 == i,
                Ok(Some(p)) => r.0 == Ok::<Option<u64>, ParseError>(Some(p.0)) && i <= r.1
                    <= tokens@.len() && p.1 == tokens_view(tokens@).skip(r.1 as int),
            }
        }),
{
    let ghost tv = tokens_view(tokens@);
    let ghost t = tv.skip(i as int);
    let n = tokens.len();
    if i < n && matches!(&tokens[i], Token::FractionMarker) {
        proof {
            lemma_seq_skip_of_skip(tv, i as int, 1);
        }
        let run = scan_digits_u64(tokens, i + 1);
        match run {
            Err(e) => {
                proof {
                    assert(digit_run_value(t.skip(1), 0) == 0);
                }
                (Err(e), i + 1)
            },
            Ok((v, count)) => {
                if count == 0 {
                    (Err(ParseError::NoDigitsAfterFractionMarker), i + 1)
                } else {
                    proof {
                        lemma_digit_run_len(tv.skip(i as int + 1));
                        lemma_seq_skip_of_skip(tv, i as int + 1, count as int);
                    }
                    (Ok(Some(v)), i + 1 + count)
                }
            },
        }
    } else {
        (Ok(None), i)
    }
}

/// The exponent part at the cursor, as `p_exponent` says.
fn parse_exponent(tokens: &Vec<Token>, i: usize) -> (r: (Result<Option<i64>, ParseError>, usize))
    requires
        i <= tokens@.len(),
    ensures
        ({
            let t = tokens_view(tokens@).skip(i as int);
            match p_exponent(t) {
                Err(e) => r.0 == Err::<Option<i64>, ParseError>(e),
                Ok(None) => r.0 == Ok::<Option<i64>, ParseError>(None) && r.1 == i,
                Ok(Some(p)) => r.0 == Ok::<Option<i64>, ParseError>(Some(p.0)) && i <= r.1
                    <= tokens@.len() && p.1 == tokens_view(tokens@).skip(r.1 as int),
            }
        }),
{
    let ghost tv = tokens_view(tokens@);
    let ghost t = tv.skip(i as int);
    let n = tokens.len();
    if i < n && matches!(&tokens[i], Token::ExponentMarker) {
        let mut j = i + 1;
        let mut neg = false;
        let mut signed = false;
        if j < n && matches!(&tokens[j], Token::SignNeg) {
            neg = true;
            signed = true;
            j = j + 1;
        } else if j < n && matches!(&tokens[j], Token::SignPos) {
            signed = true;
            j = j + 1;
        }
        proof {
            lemma_seq_skip_of_skip(tv, i as int, 1);
            lemma_seq_skip_of_skip(tv, i as int + 1, 1);
            assert(tv.skip(j as int) == (if signed { t.skip(1).skip(1) } else { t.skip(1) }));
        }
        let run = scan_digits_i64(tokens, j, false);
        match run {
            Err(e) => {
                proof {
                    assert(digit_run_value(tv.skip(j as int), 0) == 0);
                }
                (Err(e), j)
            },
            Ok((v, count)) => {
                if count == 0 {
                    if signed {
                        (Err(ParseError::NoDigitsAfterSign), j)
                    } else {
                        (Err(ParseError::NoDigitsAfterExponent), j)
                    }
                } else {
                    proof {
                        lemma_digit_run_len(tv.skip(j as int));
                        lemma_digit_run_value_nonneg(
                            tv.skip(j as int),
                            digit_run_len(tv.skip(j as int)) as int,
                        );
                        lemma_seq_skip_of_skip(tv, j as int, count as int);
                    }
                    let value = if neg {
                        -v
                    } else {
                        v
                    };
                    (Ok(Some(value)), j + count)
                }
            },
        }
    } else {
        (Ok(None), i)
    }
}

/// The number at the cursor, as `p_number` says.
fn parse_number(tokens: &Vec<Token>, i: usize) -> (r: (
    Result<Option<JsonNumber>, ParseError>,
    usize,
))
    requires
        i <= tokens@.len(),
    ensures
        ({
            let t = tokens_view(tokens@).skip(i as int);
            match p_number(t) {
                Err(e) => r.0 == Err::<Option<JsonNumber>, ParseError>(e),
                Ok(None) => r.0 == Ok::<Option<JsonNumber>, ParseError>(None) && r.1 == i,
                Ok(Some(p)) => (r.0 matches Ok(Some(nm)) && number_view(nm) == p.0) && i <= r.1
                    <= tokens@.len() && p.1 == tokens_view(tokens@).skip(r.1 as int),
            }
        }),
{
    let (ires, j1) = parse_integer(tokens, i);
    match ires {
        Err(e) => (Err(e), j1),
        Ok(None) => (Ok(None), i),
        Ok(Some(integer)) => {
            let (fres, j2) = parse_fraction(tokens, j1);
            match fres {
                Err(e) => (Err(e), j2),
                Ok(fraction) => {
                    let (eres, j3) = parse_exponent(tokens, j2);
                    match eres {
                        Err(e) => (Err(e), j3),
                        Ok(exponent) => (
                            Ok(Some(JsonNumber { integer, fraction, exponent })),
                            j3,
                        ),
                    }
                },
            }
        },
    }
}

proof fn lemma_members_view_singleton(m: JsonMember)
    ensures
        members_view(seq![m]) == seq![member_view(m)],
{
    lemma_members_view_push(Seq::empty(), m);
    assert(Seq::<JsonMember>::empty().push(m) =~= seq![m]);
    assert(members_view(Seq::<JsonMember>::empty()) =~= Seq::<JsonMemberView>::empty());
    assert(Seq::<JsonMemberView>::empty().push(member_view(m)) =~= seq![member_view(m)]);
}

proof fn lemma_elements_view_singleton(e: JsonElement)
    ensures
        elements_view(seq![e]) == seq![element_view(e)],
{
    lemma_elements_view_push(Seq::empty(), e);
    assert(Seq::<JsonElement>::empty().push(e) =~= seq![e]);
    assert(elements_view(Seq::<JsonElement>::empty()) =~= Seq::<JsonElementView>::empty());
    assert(Seq::<JsonElementView>::empty().push(element_view(e)) =~= seq![element_view(e)]);
}

/// The string value at the cursor, as `p_string` says.
fn parse_string(tokens: &Vec<Token>, i: usize) -> (r: (Option<JsonString>, usize))
    requires
        i <= tokens@.len(),
    ensures
        ({
            let t = tokens_view(tokens@).skip(i as int);
            match p_string(t) {
                None => r.0 is None && r.1 == i,
                Some(p) => (r.0 matches Some(s) && string_node_view(s) == p.0) && r.1 == i + 1
                    && p.1 == tokens_view(tokens@).skip(r.1 as int),
            }
        }),
{
    let ghost tv = tokens_view(tokens@);
    if i < tokens.len() {
        match &tokens[i] {
            Token::String(s) => {
                let content = s.clone();
                proof {
                    lemma_seq_skip_of_skip(tv, i as int, 1);
                }
                (Some(JsonString { string: content }), i + 1)
            },
            _ => (None, i),
        }
    } else {
        (None, i)
    }
}

/// The member at the cursor, as `p_member` says.
fn parse_member(tokens: &Vec<Token>, i: usize) -> (r: (Result<Option<JsonMember>, ParseError>, usize))
    requires
        i <= tokens@.len(),
    ensures
        ({
            let t = tokens_view(tokens@).skip(i as int);
            match p_member(t) {
                Err(e) => r.0 == Err::<Option<JsonMember>, ParseError>(e),
                Ok(None) => r.0 == Ok::<Option<JsonMember>, ParseError>(None) && r.1 == i,
                Ok(Some(p)) => (r.0 matches Ok(Some(m)) && member_view(m) == p.0) && i <= r.1
                    <= tokens@.len() && p.1 == tokens_view(tokens@).skip(r.1 as int),
            }
        }),
    decreases tokens@.len() - i, 1int,
{
    let ghost tv = tokens_view(tokens@);
    let ghost t = tv.skip(i as int);
    let n = tokens.len();
    let (sres, j) = parse_string(tokens, i);
    match sres {
        None => (Ok(None), i),
        Some(key) => {
            if j < n && matches!(&tokens[j], Token::Colon) {
                proof {
                    lemma_seq_skip_of_skip(tv, i as int, 2);
                }
                let (eres, j2) = parse_element(tokens, j + 1);
                match eres {
                    Err(e) => (Err(e), j2),
                    Ok(None) => (Err(ParseError::NoElementForKey), j2),
                    Ok(Some(el)) => (Ok(Some(JsonMember { string: key, element: el })), j2),
                }
            } else {
                (Err(ParseError::MissingColon), j)
            }
        },
    }
}

/// The comma-separated members at the cursor, as `p_members` says.
fn parse_members(tokens: &Vec<Token>, i: usize) -> (r: (
    Result<Option<Vec<JsonMember>>, ParseError>,
    usize,
))
    requires
        i <= tokens@.len(),
    ensures
        ({
            let t = tokens_view(tokens@).skip(i as int);
            match p_members(t) {
                Err(e) => r.0 == Err::<Option<Vec<JsonMember>>, ParseError>(e),
                Ok(None) => (r.0 matches Ok(opt) && opt is None) && r.1 == i,
                Ok(Some(p)) => (r.0 matches Ok(Some(ms)) && members_view(ms@) == p.0) && i <= r.1
                    <= tokens@.len() && p.1 == tokens_view(tokens@).skip(r.1 as int),
            }
        }),
    decreases tokens@.len() - i, 3int,
{
    let ghost tv = tokens_view(tokens@);
    let ghost t = tv.skip(i as int);
    let n = tokens.len();
    let (first, j0) = parse_member(tokens, i);
    match first {
        Err(e) => (Err(e), j0),
        Ok(None) => (Ok(None), i),
        Ok(Some(m)) => {
            let mut acc: Vec<JsonMember> = Vec::new();
            acc.push(m);
            let mut j = j0;
            proof {
                lemma_member_rest(t);
                assert(acc@ =~= seq![m]);
                lemma_members_view_singleton(m);
            }
            loop
                invariant
                    i <= j <= n,
                    n == tokens@.len(),
                    tv == tokens_view(tokens@),
                    t == tv.skip(i as int),
                    p_members(t) == p_members_tail(members_view(acc@), tv.skip(j as int)),
                ensures
                    i <= j <= n,
                    p_members(t) == p_members_tail(members_view(acc@), tv.skip(j as int)),
                    !(j < n && tv.skip(j as int)[0] is Comma),
                decreases n - j,
            {
                let mut comma = false;
                if j < n {
                    if matches!(&tokens[j], Token::Comma) {
                        comma = true;
                    }
                }
                if !comma {
                    break;
                }
                let (mres, j2) = parse_member(tokens, j + 1);
                proof {
                    lemma_seq_skip_of_skip(tv, j as int, 1);
                    lemma_member_rest(tv.skip(j as int + 1));
                }
                match mres {
                    Err(e) => {
                        return (Err(e), j2);
                    },
                    Ok(None) => {
                        return (Err(ParseError::MembersFailed), j2);
                    },
                    Ok(Some(m2)) => {
                        proof {
                            lemma_members_view_push(acc@, m2);
                        }
                        acc.push(m2);
                        j = j2;
                    },
                }
            }
            (Ok(Some(acc)), j)
        },
    }
}

/// The object at the cursor, as `p_object` says.
fn parse_object(tokens: &Vec<Token>, i: usize) -> (r: (
    Result<Option<JsonObject>, ParseError>,
    usize,
))
    requires
        i <= tokens@.len(),
    ensures
        ({
            let t = tokens_view(tokens@).skip(i as int);
            match p_object(t) {
                Err(e) => r.0 == Err::<Option<JsonObject>, ParseError>(e),
                Ok(None) => (r.0 matches Ok(opt) && opt is None) && r.1 == i,
                Ok(Some(p)) => (r.0 matches Ok(Some(ob)) && ob@ == p.0) && i <= r.1
                    <= tokens@.len() && p.1 == tokens_view(tokens@).skip(r.1 as int),
            }
        }),
    decreases tokens@.len() - i, 4int,
{
    let ghost tv = tokens_view(tokens@);
    let ghost t = tv.skip(i as int);
    let n = tokens.len();
    if i < n && matches!(&tokens[i], Token::OpenParen) {
        proof {
            lemma_seq_skip_of_skip(tv, i as int, 1);
        }
        let (mres, j) = parse_members(tokens, i + 1);
        match mres {
            Err(e) => (Err(e), j),
            Ok(mopt) => {
                let members: Vec<JsonMember> = match mopt {
                    Some(ms) => ms,
                    None => Vec::new(),
                };
                proof {
                    if members@.len() == 0 {
                        assert(members_view(members@) =~= Seq::<JsonMemberView>::empty());
                    }
                }
                if j < n && matches!(&tokens[j], Token::CloseParen) {
                    proof {
                        lemma_seq_skip_of_skip(tv, j as int, 1);
                    }
                    (Ok(Some(JsonObject { members })), j + 1)
                } else {
                    (Err(ParseError::UnclosedObject), j)
                }
            },
        }
    } else {
        (Ok(None), i)
    }
}

/// The comma-separated elements at the cursor, as `p_elements` says.
fn parse_elements(tokens: &Vec<Token>, i: usize) -> (r: (
    Result<Option<Vec<JsonElement>>, ParseError>,
    usize,
))
    requires
        i <= tokens@.len(),
    ensures
        ({
            let t = tokens_view(tokens@).skip(i as int);
            match p_elements(t) {
                Err(e) => r.0 == Err::<Option<Vec<JsonElement>>, ParseError>(e),
                Ok(None) => (r.0 matches Ok(opt) && opt is None) && r.1 == i,
                Ok(Some(p)) => (r.0 matches Ok(Some(es)) && elements_view(es@) == p.0) && i <= r.1
                    <= tokens@.len() && p.1 == tokens_view(tokens@).skip(r.1 as int),
            }
        }),
    decreases tokens@.len() - i, 8int,
{
    let ghost tv = tokens_view(tokens@);
    let ghost t = tv.skip(i as int);
    let n = tokens.len();
    let (first, j0) = parse_element(tokens, i);
    match first {
        Err(e) => (Err(e), j0),
        Ok(None) => (Ok(None), i),
        Ok(Some(el)) => {
            let mut acc: Vec<JsonElement> = Vec::new();
            acc.push(el);
            let mut j = j0;
            proof {
                lemma_element_rest(t);
                assert(acc@ =~= seq![el]);
                lemma_elements_view_singleton(el);
            }
            loop
                invariant
                    i <= j <= n,
                    n == tokens@.len(),
                    tv == tokens_view(tokens@),
                    t == tv.skip(i as int),
                    p_elements(t) == p_elements_tail(elements_view(acc@), tv.skip(j as int)),
                ensures
                    i <= j <= n,
                    p_elements(t) == p_elements_tail(elements_view(acc@), tv.skip(j as int)),
                    !(j < n && tv.skip(j as int)[0] is Comma),
                decreases n - j,
            {
                let mut comma = false;
                if j < n {
                    if matches!(&tokens[j], Token::Comma) {
                        comma = true;
                    }
                }
                if !comma {
                    break;
                }
                let (eres, j2) = parse_element(tokens, j + 1);
                proof {
                    lemma_seq_skip_of_skip(tv, j as int, 1);
                    lemma_element_rest(tv.skip(j as int + 1));
                }
                match eres {
                    Err(e) => {
                        return (Err(e), j2);
                    },
                    Ok(None) => {
                        return (Err(ParseError::ElementsFailed), j2);
                    },
                    Ok(Some(e2)) => {
                        proof {
                            lemma_elements_view_push(acc@, e2);
                        }
                        acc.push(e2);
                        j = j2;
                    },
                }
            }
            (Ok(Some(acc)), j)
        },
    }
}

/// The array at the cursor, as `p_array` says.
fn parse_array(tokens: &Vec<Token>, i: usize) -> (r: (
    Result<Option<JsonArray>, ParseError>,
    usize,
))
    requires
        i <= tokens@.len(),
    ensures
        ({
            let t = tokens_view(tokens@).skip(i as int);
            match p_array(t) {
                Err(e) => r.0 == Err::<Option<JsonArray>, ParseError>(e),
                Ok(None) => (r.0 matches Ok(opt) && opt is None) && r.1 == i,
                Ok(Some(p)) => (r.0 matches Ok(Some(ar)) && ar@ == p.0) && i <= r.1
                    <= tokens@.len() && p.1 == tokens_view(tokens@).skip(r.1 as int),
            }
        }),
    decreases tokens@.len() - i, 4int,
{
    let ghost tv = tokens_view(tokens@);
    let ghost t = tv.skip(i as int);
    let n = tokens.len();
    if i < n && matches!(&tokens[i], Token::OpenBracket) {
        proof {
            lemma_seq_skip_of_skip(tv, i as int, 1);
        }
        let (eres, j) = parse_elements(tokens, i + 1);
        match eres {
            Err(e) => (Err(e), j),
            Ok(eopt) => {
                let elements: Vec<JsonElement> = match eopt {
                    Some(es) => es,
                    None => Vec::new(),
                };
                proof {
                    if elements@.len() == 0 {
                        assert(elements_view(elements@) =~= Seq::<JsonElementView>::empty());
                    }
                }
                if j < n && matches!(&tokens[j], Token::CloseBracket) {
                    proof {
                        lemma_seq_skip_of_skip(tv, j as int, 1);
                    }
                    (Ok(Some(JsonArray { elements })), j + 1)
                } else {
                    (Err(ParseError::UnclosedArray), j)
                }
            },
        }
    } else {
        (Ok(None), i)
    }
}

/// The value at the cursor, as `p_value` says: literals, then object,
/// array, string, number.
fn parse_value(tokens: &Vec<Token>, i: usize) -> (r: (
    Result<Option<JsonValue>, ParseError>,
    usize,
))
    requires
        i <= tokens@.len(),
    ensures
        ({
            let t = tokens_view(tokens@).skip(i as int);
            match p_value(t) {
                Err(e) => r.0 == Err::<Option<JsonValue>, ParseError>(e),
                Ok(None) => (r.0 matches Ok(opt) && opt is None) && r.1 == i,
                Ok(Some(p)) => (r.0 matches Ok(Some(v)) && value_view(v) == p.0) && i <= r.1
                    <= tokens@.len() && p.1 == tokens_view(tokens@).skip(r.1 as int),
            }
        }),
    decreases tokens@.len() - i, 5int,
{
    let ghost tv = tokens_view(tokens@);
    let ghost t = tv.skip(i as int);
    let n = tokens.len();
    if i < n {
        let lit: Option<JsonValue> = match &tokens[i] {
            Token::True => Some(JsonValue::True),
            Token::False => Some(JsonValue::False),
            Token::Null => Some(JsonValue::Null),
            _ => None,
        };
        match lit {
            Some(v) => {
                proof {
                    lemma_seq_skip_of_skip(tv, i as int, 1);
                }
                return (Ok(Some(v)), i + 1);
            },
            None => {},
        }
    }
    let (ores, jo) = parse_object(tokens, i);
    match ores {
        Err(e) => {
            return (Err(e), jo);
        },
        Ok(Some(ob)) => {
            return (Ok(Some(JsonValue::Object(ob))), jo);
        },
        Ok(None) => {},
    }
    let (ares, ja) = parse_array(tokens, i);
    match ares {
        Err(e) => {
            return (Err(e), ja);
        },
        Ok(Some(ar)) => {
            return (Ok(Some(JsonValue::Array(ar))), ja);
        },
        Ok(None) => {},
    }
    let (sres, js) = parse_string(tokens, i);
    match sres {
        Some(s) => {
            return (Ok(Some(JsonValue::String(s))), js);
        },
        None => {},
    }
    let (nres, jn) = parse_number(tokens, i);
    match nres {
        Err(e) => (Err(e), jn),
        Ok(Some(nm)) => (Ok(Some(JsonValue::Number(nm))), jn),
        Ok(None) => (Ok(None), i),
    }
}

/// The element at the cursor, as `p_element` says.
fn parse_element(tokens: &Vec<Token>, i: usize) -> (r: (
    Result<Option<JsonElement>, ParseError>,
    usize,
))
    requires
        i <= tokens@.len(),
    ensures
        ({
            let t = tokens_view(tokens@).skip(i as int);
            match p_element(t) {
                Err(e) => r.0 == Err::<Option<JsonElement>, ParseError>(e),
                Ok(None) => (r.0 matches Ok(opt) && opt is None) && r.1 == i,
                Ok(Some(p)) => (r.0 matches Ok(Some(el)) && element_view(el) == p.0) && i <= r.1
                    <= tokens@.len() && p.1 == tokens_view(tokens@).skip(r.1 as int),
            }
        }),
    decreases tokens@.len() - i, 6int,
{
    let (vres, j) = parse_value(tokens, i);
    match vres {
        Err(e) => (Err(e), j),
        Ok(None) => (Ok(None), i),
        Ok(Some(v)) => (Ok(Some(JsonElement { value: v })), j),
    }
}

/// Parse a token sequence into a document: exactly one top-level
/// element, nothing before, nothing after.  Returns the tree or the
/// first grammar error, exactly as `p_doc` says: an empty sequence is
/// the empty-input error, leftover tokens after the element are trailing
/// data, and no error ever returns a partial tree.
pub fn parse(tokens: &Vec<Token>) -> (r: Result<JsonData, ParseError>)
    ensures
        match p_doc(tokens_view(tokens@)) {
            Ok(dm) => r matches Ok(d) && d@ == dm,
            Err(e) => r == Err::<JsonData, ParseError>(e),
        },
{
    let ghost tv = tokens_view(tokens@);
    let n = tokens.len();
    if n == 0 {
        return Err(ParseError::EmptyInput);
    }
    proof {
        assert(tv.skip(0) =~= tv);
    }
    let (eres, j) = parse_element(tokens, 0);
    match eres {
        Err(e) => Err(e),
        Ok(None) => Err(ParseError::NoElement),
        Ok(Some(el)) => {
            if j == n {
                Ok(JsonData { element: el })
            } else {
                Err(ParseError::TrailingData)
            }
        },
    }
}

} // verus!
