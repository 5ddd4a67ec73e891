//! HTTP header fields.
//!
//! [`HeaderName`], [`HeaderValue`] and [`HeaderMap`] come from the `http` crate and are
//! opaque here. What they hold is [`name_bytes`], [`value_bytes`] and [`fields`]; the items of
//! this module say what the functions used in this crate do to that.
use bytes::Bytes;
use http::{HeaderMap, HeaderName, HeaderValue, StatusCode};
use vstd::prelude::*;

use crate::buffer::contents;

verus! {

#[verifier::external_type_specification]
#[verifier::external_body]
pub struct ExHeaderName(HeaderName);

#[verifier::external_type_specification]
#[verifier::external_body]
pub struct ExHeaderValue(HeaderValue);

#[verifier::external_type_specification]
#[verifier::external_body]
#[verifier::reject_recursive_types(T)]
pub struct ExHeaderMap<T>(HeaderMap<T>);

/// The characters of a header name, in lower case.
pub uninterp spec fn name_bytes(n: HeaderName) -> Seq<u8>;

/// The bytes of a header value.
pub uninterp spec fn value_bytes(v: HeaderValue) -> Seq<u8>;

/// The values of each header name, in the order in which they were added.
pub uninterp spec fn fields(m: HeaderMap<HeaderValue>) -> Map<Seq<u8>, Seq<Seq<u8>>>;

/// The bytes that can stand in a header name.
pub open spec fn is_token(b: u8) -> bool {
    ||| 0x30 <= b <= 0x39
    ||| 0x41 <= b <= 0x5a
    ||| 0x61 <= b <= 0x7a
    ||| b == 0x21 || b == 0x23 || b == 0x24 || b == 0x25 || b == 0x26 || b == 0x27
    ||| b == 0x2a || b == 0x2b || b == 0x2d || b == 0x2e
    ||| b == 0x5e || b == 0x5f || b == 0x60 || b == 0x7c || b == 0x7e
}

/// The bytes that can stand in a header value.
pub open spec fn is_value_byte(b: u8) -> bool {
    b >= 32 && b != 127 || b == 9
}

/// The longest header name.
pub const MAX_NAME: usize = 0xffff;

/// The most names that a map can have with another one still being added.
pub const MAX_FIELDS: usize = 6553;

/// Whether `s` can be a header name.
pub open spec fn is_name(s: Seq<u8>) -> bool {
    &&& 0 < s.len() <= MAX_NAME
    &&& forall|i: int| 0 <= i < s.len() ==> is_token(#[trigger] s[i])
}

/// Whether `s` can be a header value.
pub open spec fn is_value(s: Seq<u8>) -> bool {
    forall|i: int| 0 <= i < s.len() ==> is_value_byte(#[trigger] s[i])
}

/// A byte with letters in lower case.
pub open spec fn lower_byte(b: u8) -> u8 {
    if 0x41 <= b <= 0x5a {
        (b + 32) as u8
    } else {
        b
    }
}

/// The same text with letters in lower case.
pub open spec fn lower(s: Seq<u8>) -> Seq<u8> {
    s.map_values(|b: u8| lower_byte(b))
}

/// `HeaderName::from_bytes` takes a run of one to 65535 token characters, and turns letters
/// to lower case.
#[verifier::external_body]
pub(crate) fn header_name(src: &[u8]) -> (r: Option<HeaderName>)
    ensures
        r is Some <==> is_name(src@),
        r matches Some(n) ==> name_bytes(n) == lower(src@),
{
    HeaderName::from_bytes(src).ok()
}

/// `HeaderName::as_str` is the name in lower case.
#[verifier::external_body]
pub(crate) fn header_name_bytes(n: &HeaderName) -> (r: &[u8])
    ensures
        r@ == name_bytes(*n),
{
    n.as_str().as_bytes()
}

/// `HeaderValue::from_maybe_shared` takes any bytes but control characters other than the
/// tab.
#[verifier::external_body]
pub(crate) fn header_value(src: Bytes) -> (r: Option<HeaderValue>)
    ensures
        r is Some <==> is_value(contents(src)),
        r matches Some(v) ==> value_bytes(v) == contents(src),
{
    HeaderValue::from_maybe_shared(src).ok()
}

/// `HeaderValue::as_bytes` is what the value was made of.
#[verifier::external_body]
pub(crate) fn header_value_bytes(v: &HeaderValue) -> (r: &[u8])
    ensures
        r@ == value_bytes(*v),
{
    v.as_bytes()
}

/// `HeaderMap::new` makes an empty map.
#[verifier::external_body]
pub(crate) fn headers_new() -> (m: HeaderMap<HeaderValue>)
    ensures
        fields(m).dom() == Set::<Seq<u8>>::empty(),
{
    HeaderMap::new()
}

/// `HeaderMap::insert` puts the value in place of all values of the name. It panics when the
/// map has no room for another name, which does not happen up to 6553 names.
#[verifier::external_body]
pub(crate) fn headers_insert(m: &mut HeaderMap<HeaderValue>, n: HeaderName, v: HeaderValue)
    requires
        fields(*old(m)).dom().finite(),
        fields(*old(m)).dom().len() <= MAX_FIELDS,
    ensures
        fields(*final(m)) == fields(*old(m)).insert(name_bytes(n), seq![value_bytes(v)]),
{
    m.insert(n, v);
}

/// `HeaderMap::get` is the first value of the name.
#[verifier::external_body]
pub(crate) fn headers_get<'a>(m: &'a HeaderMap<HeaderValue>, n: &HeaderName) -> (r: Option<
    &'a HeaderValue,
>)
    ensures
        match r {
            None => !fields(*m).dom().contains(name_bytes(*n)),
            Some(v) => {
                &&& fields(*m).dom().contains(name_bytes(*n))
                &&& fields(*m)[name_bytes(*n)].len() > 0
                &&& value_bytes(*v) == fields(*m)[name_bytes(*n)][0]
            },
        },
{
    m.get(n)
}

/// The bytes of header values.
pub open spec fn values_view(vs: Seq<&HeaderValue>) -> Seq<Seq<u8>> {
    vs.map_values(|v: &HeaderValue| value_bytes(*v))
}

/// `HeaderMap::get_all` gives all values of the name in the order in which they were added,
/// and none for a name that is not in the map.
#[verifier::external_body]
pub(crate) fn headers_get_all<'a>(m: &'a HeaderMap<HeaderValue>, n: &HeaderName) -> (r: Vec<
    &'a HeaderValue,
>)
    ensures
        values_view(r@) == if fields(*m).dom().contains(name_bytes(*n)) {
            fields(*m)[name_bytes(*n)]
        } else {
            Seq::empty()
        },
{
    m.get_all(n).iter().collect()
}

/// The characters of header names.
pub open spec fn names_view(ns: Seq<HeaderName>) -> Seq<Seq<u8>> {
    ns.map_values(|n: HeaderName| name_bytes(n))
}

/// Whether `names` are the names of `m`, each once, in whatever order.
pub open spec fn names_of(m: Map<Seq<u8>, Seq<Seq<u8>>>, names: Seq<Seq<u8>>) -> bool {
    &&& names.no_duplicates()
    &&& forall|n: Seq<u8>| names.contains(n) <==> m.dom().contains(n)
}

/// `HeaderMap::keys` gives each name once, in an order that is not specified.
#[verifier::external_body]
pub(crate) fn headers_keys(m: &HeaderMap<HeaderValue>) -> (r: Vec<HeaderName>)
    ensures
        names_of(fields(*m), names_view(r@)),
{
    m.keys().cloned().collect()
}

/// The number of names of a map.
pub(crate) fn headers_len(m: &HeaderMap<HeaderValue>) -> (n: usize)
    ensures
        fields(*m).dom().finite(),
        n == fields(*m).dom().len(),
{
    let names = headers_keys(m);
    proof {
        let seen = names_view(names@);
        seen.unique_seq_to_set();
        vstd::seq_lib::seq_to_set_is_finite(seen);
        assert(seen.to_set() =~= fields(*m).dom());
    }
    names.len()
}

/// Whether `b` is a decimal digit.
pub open spec fn is_digit(b: u8) -> bool {
    0x30 <= b <= 0x39
}

/// The status code that three digits spell.
pub open spec fn status_of(s: Seq<u8>) -> Option<u16> {
    if s.len() == 3 && is_digit(s[0]) && is_digit(s[1]) && is_digit(s[2]) && s[0] != 0x30 {
        Some(((s[0] - 0x30) * 100 + (s[1] - 0x30) * 10 + (s[2] - 0x30)) as u16)
    } else {
        None
    }
}

/// `StatusCode::from_bytes` reads three digits, the first of which is not a zero.
#[verifier::external_body]
pub(crate) fn status_code(src: &[u8]) -> (r: Option<u16>)
    ensures
        r == status_of(src@),
{
    StatusCode::from_bytes(src).ok().map(|s| s.as_u16())
}

// ---------------------------------------------------------------- laws

/// In lower case each of the letters A to Z turns to the small letter, and nothing else
/// changes.
pub proof fn law_lower(s: Seq<u8>, i: int)
    ensures
        lower(s).len() == s.len(),
        0 <= i < s.len() ==> {
            &&& 0x41 <= s[i] <= 0x5a ==> lower(s)[i] == s[i] + 32
            &&& s[i] < 0x41 || s[i] > 0x5a ==> lower(s)[i] == s[i]
        },
{
}

/// Three digits are a status code, read as a number, if the first one is not a zero. Nothing
/// else is one.
pub proof fn law_status_code(s: Seq<u8>)
    ensures
        status_of(s) is Some <==> s.len() == 3 && 0x31 <= s[0] <= 0x39 && 0x30 <= s[1] <= 0x39
            && 0x30 <= s[2] <= 0x39,
        status_of(s) matches Some(n) ==> n == 100 * (s[0] - 0x30) + 10 * (s[1] - 0x30) + (s[2]
            - 0x30),
{
}

/// A header name is made of the characters that can be seen, without quotes, brackets, commas,
/// slashes, colons, semicolons, and what stands between the nine and the A.
pub proof fn law_token(b: u8)
    ensures
        is_token(b) <==> {
            &&& 0x21 <= b <= 0x7e
            &&& b != 0x22 && b != 0x28 && b != 0x29 && b != 0x2c && b != 0x2f
            &&& !(0x3a <= b <= 0x40) && !(0x5b <= b <= 0x5d)
            &&& b != 0x7b && b != 0x7d
        },
{
}

/// What can be a header name, and what can be a header value.
pub proof fn law_name_and_value(s: Seq<u8>)
    ensures
        is_name(s) ==> 0 < s.len() <= 65535,
        is_name(s) ==> forall|i: int|
            0 <= i < s.len() ==> 0x20 < #[trigger] s[i] < 0x7f && s[i] != 0x3a,
        s.len() > 0 && s.len() <= 65535 && (forall|i: int|
            0 <= i < s.len() ==> 0x30 <= #[trigger] s[i] <= 0x39 || 0x41 <= s[i] <= 0x5a || 0x61
                <= s[i] <= 0x7a || s[i] == 0x2d || s[i] == 0x5f) ==> is_name(s),
        is_value(s) <==> forall|i: int|
            0 <= i < s.len() ==> #[trigger] s[i] == 9 || s[i] >= 32 && s[i] != 127,
        MAX_NAME == 65535,
        MAX_FIELDS == 6553,
{
    if is_name(s) {
        assert forall|i: int| 0 <= i < s.len() implies 0x20 < #[trigger] s[i] < 0x7f && s[i]
            != 0x3a by {
            assert(is_token(s[i]));
        }
    }
    if is_value(s) {
        assert forall|i: int| 0 <= i < s.len() implies #[trigger] s[i] == 9 || s[i] >= 32 && s[i]
            != 127 by {
            assert(is_value_byte(s[i]));
        }
    }
}

/// Names and values are seen as their bytes, one by one, and the names of a map are each there
/// once.
pub proof fn law_names_seen(
    ns: Seq<HeaderName>,
    vs: Seq<&HeaderValue>,
    m: Map<Seq<u8>, Seq<Seq<u8>>>,
    names: Seq<Seq<u8>>,
    i: int,
)
    ensures
        names_view(ns).len() == ns.len(),
        0 <= i < ns.len() ==> names_view(ns)[i] == name_bytes(ns[i]),
        values_view(vs).len() == vs.len(),
        0 <= i < vs.len() ==> values_view(vs)[i] == value_bytes(*vs[i]),
        names_of(m, names) <==> (forall|j: int, k: int|
            0 <= j < k < names.len() ==> names[j] != names[k]) && (forall|n: Seq<u8>|
            names.contains(n) <==> m.dom().contains(n)),
{
}

} // verus!
