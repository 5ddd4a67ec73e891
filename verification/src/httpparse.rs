//! The head of a CGI response.
use bytes::Bytes;
use http::{HeaderMap, HeaderValue};
use vstd::prelude::*;

use crate::buffer::{chunk, contents};
use crate::headers::{
    fields, header_name, header_value, headers_insert, headers_len, is_name, is_token, is_value,
    lower, MAX_FIELDS, MAX_NAME,
};

verus! {

/// The most header fields of a response.
pub const MAX_HEADERS: usize = 100;

/// Header fields as they were read: names and values.
pub type Fields = Vec<(Vec<u8>, Vec<u8>)>;

/// The bytes of header fields.
pub open spec fn fields_view(v: Seq<(Vec<u8>, Vec<u8>)>) -> Seq<(Seq<u8>, Seq<u8>)> {
    v.map_values(|f: (Vec<u8>, Vec<u8>)| (f.0@, f.1@))
}

/// What a buffer holds of a response head.
pub enum HeadParse {
    /// The head ends after so many bytes, and has these fields.
    Complete(usize, Fields),
    /// The head does not end in the buffer.
    Partial,
    /// This is no head, or it has too many fields.
    Invalid,
}

/// What `httparse::parse_headers` makes of `buf` with room for `max` fields: where the head
/// ends and its fields, `None` if it does not end, or an error.
pub uninterp spec fn parsed_headers(buf: Seq<u8>, max: nat) -> Result<
    Option<(nat, Seq<(Seq<u8>, Seq<u8>)>)>,
    (),
>;

/// Whether a name is made of token characters, with at least one of them.
pub open spec fn is_field_name(s: Seq<u8>) -> bool {
    &&& s.len() > 0
    &&& forall|i: int| 0 <= i < s.len() ==> is_token(#[trigger] s[i])
}

/// `httparse::parse_headers` reads header fields up to an empty line. There are at most `max`
/// of them, a name is made of token characters, a value has no control characters but tabs,
/// and the head ends inside the buffer. How fields are told apart is left to the name
/// [`parsed_headers`].
#[verifier::external_body]
pub(crate) fn parse_headers(buf: &[u8], max: usize) -> (r: HeadParse)
    requires
        max <= MAX_HEADERS,
    ensures
        match r {
            HeadParse::Complete(pos, headers) => {
                &&& parsed_headers(buf@, max as nat) == Ok::<_, ()>(
                    Some((pos as nat, fields_view(headers@))),
                )
                &&& pos <= buf@.len()
                &&& headers@.len() <= max
                &&& forall|i: int|
                    0 <= i < headers@.len() ==> is_field_name(
                        (#[trigger] fields_view(headers@)[i]).0,
                    ) && is_value(fields_view(headers@)[i].1)
            },
            HeadParse::Partial => parsed_headers(buf@, max as nat) matches Ok(None),
            HeadParse::Invalid => parsed_headers(buf@, max as nat) is Err,
        },
{
    let mut slots = vec![httparse::EMPTY_HEADER; max];
    match httparse::parse_headers(buf, &mut slots) {
        Ok(httparse::Status::Complete((pos, headers))) => HeadParse::Complete(
            pos,
            headers.iter().map(|h| (h.name.as_bytes().to_vec(), h.value.to_vec())).collect(),
        ),
        Ok(httparse::Status::Partial) => HeadParse::Partial,
        Err(_) => HeadParse::Invalid,
    }
}

/// The map after the fields were put into it one after the other. A later field replaces an
/// earlier one of the same name.
pub open spec fn store_all(
    m: Map<Seq<u8>, Seq<Seq<u8>>>,
    fs: Seq<(Seq<u8>, Seq<u8>)>,
) -> Map<Seq<u8>, Seq<Seq<u8>>>
    decreases fs.len(),
{
    if fs.len() == 0 {
        m
    } else {
        store_all(m, fs.drop_last()).insert(lower(fs.last().0), seq![fs.last().1])
    }
}

/// Whether a field can be put into a map.
pub open spec fn storable(f: (Seq<u8>, Seq<u8>)) -> bool {
    is_name(f.0) && is_value(f.1)
}

/// Puts header fields into a map.
pub fn store_headers(headers: &Fields, header_map: &mut HeaderMap<HeaderValue>)
    requires
        forall|i: int| 0 <= i < headers@.len() ==> storable(#[trigger] fields_view(headers@)[i]),
        fields(*old(header_map)).dom().finite(),
        fields(*old(header_map)).dom().len() + headers@.len() <= MAX_FIELDS,
    ensures
        fields(*final(header_map)) == store_all(
            fields(*old(header_map)),
            fields_view(headers@),
        ),
        fields(*final(header_map)).dom().finite(),
        fields(*final(header_map)).dom().len() <= fields(*old(header_map)).dom().len()
            + headers@.len(),
{
    let ghost all = fields_view(headers@);
    let ghost m = fields(*header_map);
    let mut i: usize = 0;
    assert(all.take(0) =~= Seq::empty());
    while i < headers.len()
        invariant
            i <= headers@.len(),
            all == fields_view(headers@),
            forall|i: int| 0 <= i < headers@.len() ==> storable(#[trigger] all[i]),
            m.dom().len() + headers@.len() <= MAX_FIELDS,
            fields(*header_map) == store_all(m, all.take(i as int)),
            fields(*header_map).dom().finite(),
            fields(*header_map).dom().len() <= m.dom().len() + i,
        decreases headers@.len() - i,
    {
        let ghost f = all[i as int];
        assert(storable(f));
        let name = header_name(headers[i].0.as_slice());
        let value = header_value(Bytes::copy_from_slice(headers[i].1.as_slice()));
        if let (Some(name), Some(value)) = (name, value) {
            headers_insert(header_map, name, value);
        }
        assert(all.take(i + 1).drop_last() =~= all.take(i as int));
        i += 1;
    }
    assert(all.take(i as int) =~= all);
}

/// What became of a response head.
pub enum ParseResult {
    /// The head was read. This follows it.
    Complete(Bytes),
    /// The head does not end yet.
    Pending,
    /// This is no head.
    Invalid,
}

/// Whether all names are short enough.
pub open spec fn short_names(fs: Seq<(Seq<u8>, Seq<u8>)>) -> bool {
    forall|i: int| 0 <= i < fs.len() ==> (#[trigger] fs[i]).0.len() <= MAX_NAME
}

/// Whether all names of the head are short enough.
pub open spec fn names_fit(parsed: Result<Option<(nat, Seq<(Seq<u8>, Seq<u8>)>)>, ()>) -> bool {
    match parsed {
        Ok(Some((pos, fs))) => short_names(fs),
        _ => true,
    }
}

/// How the head `parsed` of a response is taken in: what is returned, and what the header map
/// becomes.
pub open spec fn taken_in(
    parsed: Result<Option<(nat, Seq<(Seq<u8>, Seq<u8>)>)>, ()>,
    bytes: Seq<u8>,
    m: Map<Seq<u8>, Seq<Seq<u8>>>,
    r: ParseResult,
    m2: Map<Seq<u8>, Seq<Seq<u8>>>,
) -> bool {
    match parsed {
        Ok(Some((pos, fs))) => {
            &&& r matches ParseResult::Complete(rest) && contents(rest) == bytes.skip(pos as int)
            &&& m2 == store_all(m, fs)
        },
        Ok(None) => r is Pending && m2 == m,
        Err(_) => r is Invalid && m2 == m,
    }
}

/// Takes in a response head of which `parsed` is what was read from `bytes`.
pub fn take_head(
    parsed: HeadParse,
    bytes: Bytes,
    header_map: &mut HeaderMap<HeaderValue>,
) -> (r: ParseResult)
    requires
        fields(*old(header_map)).dom().finite(),
        parsed matches HeadParse::Complete(pos, fs) ==> {
            &&& pos <= contents(bytes).len()
            &&& fields(*old(header_map)).dom().len() + fs@.len() <= MAX_FIELDS
            &&& forall|i: int| 0 <= i < fs@.len() ==> storable(#[trigger] fields_view(fs@)[i])
        },
    ensures
        taken_in(
            parsed.as_result(),
            contents(bytes),
            fields(*old(header_map)),
            r,
            fields(*final(header_map)),
        ),
{
    match parsed {
        HeadParse::Complete(pos, headers) => {
            store_headers(&headers, header_map);
            let mut bytes = bytes;
            let _ = bytes.split_to(pos);
            ParseResult::Complete(bytes)
        },
        HeadParse::Partial => ParseResult::Pending,
        HeadParse::Invalid => ParseResult::Invalid,
    }
}

impl HeadParse {
    /// The same, as the value of [`parsed_headers`].
    pub open spec fn as_result(self) -> Result<Option<(nat, Seq<(Seq<u8>, Seq<u8>)>)>, ()> {
        match self {
            HeadParse::Complete(pos, fs) => Ok(Some((pos as nat, fields_view(fs@)))),
            HeadParse::Partial => Ok(None),
            HeadParse::Invalid => Err(()),
        }
    }
}

/// Reads a response head. Its names have at most 65535 bytes.
pub fn parse(bytes: Bytes, header_map: &mut HeaderMap<HeaderValue>) -> (r: ParseResult)
    requires
        names_fit(parsed_headers(contents(bytes), MAX_HEADERS as nat)),
        fields(*old(header_map)).dom().finite(),
        fields(*old(header_map)).dom().len() + MAX_HEADERS <= MAX_FIELDS,
    ensures
        taken_in(
            parsed_headers(contents(bytes), MAX_HEADERS as nat),
            contents(bytes),
            fields(*old(header_map)),
            r,
            fields(*final(header_map)),
        ),
{
    let parsed = parse_headers(chunk(&bytes), MAX_HEADERS);
    let ghost seen = parsed;
    proof {
        if let HeadParse::Complete(pos, fs) = seen {
            let views = fields_view(fs@);
            assert(parsed_headers(contents(bytes), MAX_HEADERS as nat) == seen.as_result());
            assert(short_names(views));
            assert forall|i: int| 0 <= i < fs@.len() implies storable(#[trigger] views[i]) by {
                assert(is_field_name(views[i].0) && is_value(views[i].1));
            }
        }
    }
    take_head(parsed, bytes, header_map)
}

/// Reads a response head, if its names have at most 65535 bytes and the map has room for it.
/// Else nothing happens.
pub fn try_parse(bytes: Bytes, header_map: &mut HeaderMap<HeaderValue>) -> (r: Option<
    ParseResult,
>)
    ensures
        match r {
            Some(r) => taken_in(
                parsed_headers(contents(bytes), MAX_HEADERS as nat),
                contents(bytes),
                fields(*old(header_map)),
                r,
                fields(*final(header_map)),
            ),
            None => *final(header_map) == *old(header_map),
        },
        r is Some <==> names_fit(parsed_headers(contents(bytes), MAX_HEADERS as nat))
            && fields(*old(header_map)).dom().len() + MAX_HEADERS <= MAX_FIELDS,
{
    if headers_len(header_map) > MAX_FIELDS - MAX_HEADERS {
        return None;
    }
    let parsed = parse_headers(chunk(&bytes), MAX_HEADERS);
    if let HeadParse::Complete(pos, headers) = &parsed {
        let mut i: usize = 0;
        while i < headers.len()
            invariant
                i <= headers@.len(),
                parsed == HeadParse::Complete(*pos, *headers),
                parsed_headers(contents(bytes), MAX_HEADERS as nat) == parsed.as_result(),
                forall|j: int|
                    0 <= j < i ==> (#[trigger] fields_view(headers@)[j]).0.len() <= MAX_NAME,
            decreases headers@.len() - i,
        {
            if headers[i].0.len() > MAX_NAME {
                proof {
                    let views = fields_view(headers@);
                    assert(views[i as int].0.len() > MAX_NAME);
                    assert(!short_names(views));
                }
                return None;
            }
            i += 1;
        }
    }
    Some(parse(bytes, header_map))
}

// ---------------------------------------------------------------- laws

/// The header map after a head was read: under the name of each field, in lower case, stands
/// exactly one value, that of the last field of that name.
pub proof fn law_every_field_stored(
    m: Map<Seq<u8>, Seq<Seq<u8>>>,
    fs: Seq<(Seq<u8>, Seq<u8>)>,
    i: int,
)
    requires
        0 <= i < fs.len(),
        forall|j: int| i < j < fs.len() ==> lower((#[trigger] fs[j]).0) != lower(fs[i].0),
    ensures
        store_all(m, fs).dom().contains(lower(fs[i].0)),
        store_all(m, fs)[lower(fs[i].0)] == seq![fs[i].1],
    decreases fs.len(),
{
    let last = fs.len() - 1;
    if i < last {
        let init = fs.drop_last();
        assert(lower(fs[last].0) != lower(fs[i].0));
        assert forall|j: int| i < j < init.len() implies lower((#[trigger] init[j]).0) != lower(
            init[i].0,
        ) by {
            assert(init[j] == fs[j]);
        }
        law_every_field_stored(m, init, i);
    }
}

/// Every name that no field has is as it was before.
pub proof fn law_other_fields_kept(
    m: Map<Seq<u8>, Seq<Seq<u8>>>,
    fs: Seq<(Seq<u8>, Seq<u8>)>,
    name: Seq<u8>,
)
    requires
        forall|j: int| 0 <= j < fs.len() ==> lower((#[trigger] fs[j]).0) != name,
    ensures
        store_all(m, fs).dom().contains(name) == m.dom().contains(name),
        m.dom().contains(name) ==> store_all(m, fs)[name] == m[name],
    decreases fs.len(),
{
    if fs.len() > 0 {
        let init = fs.drop_last();
        assert(lower(fs[fs.len() - 1].0) != name);
        assert forall|j: int| 0 <= j < init.len() implies lower((#[trigger] init[j]).0) != name by {
            assert(init[j] == fs[j]);
        }
        law_other_fields_kept(m, init, name);
    }
}

/// A head that was read ends where it ends: the body starts right behind it, and its fields
/// are in the map. A head that is not complete, or is none, leaves the map as it is.
pub proof fn law_head_taken_in(
    pos: nat,
    fs: Seq<(Seq<u8>, Seq<u8>)>,
    bytes: Seq<u8>,
    m: Map<Seq<u8>, Seq<Seq<u8>>>,
    r: ParseResult,
    m2: Map<Seq<u8>, Seq<Seq<u8>>>,
    i: int,
)
    requires
        pos <= bytes.len(),
    ensures
        taken_in(Ok(Some((pos, fs))), bytes, m, r, m2) ==> {
            &&& r matches ParseResult::Complete(rest) && bytes.take(pos as int) + contents(rest)
                == bytes
            &&& 0 <= i < fs.len() && (forall|j: int|
                i < j < fs.len() ==> lower((#[trigger] fs[j]).0) != lower(fs[i].0)) ==> {
                &&& m2.dom().contains(lower(fs[i].0))
                &&& m2[lower(fs[i].0)] == seq![fs[i].1]
            }
            &&& forall|name: Seq<u8>|
                #![trigger m2.dom().contains(name)]
                #![trigger m2[name]]
                (forall|j: int| 0 <= j < fs.len() ==> lower((#[trigger] fs[j]).0) != name) ==> {
                    &&& m2.dom().contains(name) == m.dom().contains(name)
                    &&& m.dom().contains(name) ==> m2[name] == m[name]
                }
        },
        taken_in(Ok(None), bytes, m, r, m2) ==> r is Pending && m2 == m,
        taken_in(Err(()), bytes, m, r, m2) ==> r is Invalid && m2 == m,
{
    if taken_in(Ok(Some((pos, fs))), bytes, m, r, m2) {
        assert(bytes.take(pos as int) + bytes.skip(pos as int) =~= bytes);
        if 0 <= i < fs.len() && (forall|j: int|
            i < j < fs.len() ==> lower((#[trigger] fs[j]).0) != lower(fs[i].0)) {
            law_every_field_stored(m, fs, i);
        }
        assert forall|name: Seq<u8>|
            #![trigger m2.dom().contains(name)]
            #![trigger m2[name]]
            (forall|j: int| 0 <= j < fs.len() ==> lower((#[trigger] fs[j]).0)
                != name) implies m2.dom().contains(name) == m.dom().contains(name) && (
        m.dom().contains(name) ==> m2[name] == m[name]) by {
            law_other_fields_kept(m, fs, name);
        }
    }
}

/// A head is read if all of its names have at most 65535 bytes. It has at most a hundred
/// fields.
pub proof fn law_names_fit(pos: nat, fs: Seq<(Seq<u8>, Seq<u8>)>)
    ensures
        names_fit(Ok(Some((pos, fs)))) <==> forall|i: int|
            0 <= i < fs.len() ==> (#[trigger] fs[i]).0.len() <= 65535,
        names_fit(Ok(None)),
        names_fit(Err(())),
        MAX_HEADERS == 100,
{
}

/// Fields are seen as their bytes, one by one. A field can be put into a map if its name and
/// value can be a header name and value.
pub proof fn law_fields_seen(v: Fields, pos: usize, i: int, f: (Seq<u8>, Seq<u8>))
    ensures
        fields_view(v@).len() == v@.len(),
        0 <= i < v@.len() ==> fields_view(v@)[i] == (v@[i].0@, v@[i].1@),
        HeadParse::Complete(pos, v).as_result() == Ok::<_, ()>(Some((pos as nat, fields_view(v@)))),
        HeadParse::Partial.as_result() == Ok::<Option<(nat, Seq<(Seq<u8>, Seq<u8>)>)>, ()>(None),
        HeadParse::Invalid.as_result() is Err,
        storable(f) <==> is_name(f.0) && is_value(f.1),
{
}

} // verus!
