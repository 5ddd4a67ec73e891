//! Records from a stream of bytes that arrives piece by piece.
use bytes::{Bytes, BytesMut};
use vstd::prelude::*;

use crate::buffer::{advance, chunk, contents, put_slice, slice, written};
use crate::fastcgi::codes::RecordType;
use crate::fastcgi::record::{body_of, read_header, Body, Header, Record};

verus! {

/// A record, or the part of its body that has arrived.
#[verifier::ext_equal]
pub struct Fragment {
    pub header: Header,
    pub payload: Seq<u8>,
}

/// Where reading stands between two reads.
#[verifier::ext_equal]
pub struct Place {
    /// The header of the record that is under way. Its body length counts what is missing.
    pub current: Option<Header>,
    /// What has arrived of a body that is handed out whole.
    pub held: Seq<u8>,
    /// How many bytes of padding are still to be passed over.
    pub skip: int,
}

/// Between two records.
pub open spec fn start() -> Place {
    Place { current: None, held: Seq::empty(), skip: 0 }
}

/// The record with the header `h` is under way.
pub open spec fn within(h: Header) -> Place {
    Place { current: Some(h), held: Seq::empty(), skip: 0 }
}

/// What one read does: where reading stands afterwards, the bytes that are left, and what was
/// read.
#[verifier::ext_equal]
pub struct Step {
    pub at: Place,
    pub rest: Seq<u8>,
    pub fragment: Option<Fragment>,
}

/// Whether a record of type `t` is handed out whole: its body is no stream of bytes, so a part
/// of it means nothing.
pub open spec fn is_whole(t: RecordType) -> bool {
    t is EndRequest || t is UnknownType
}

/// The header `h` with another body length.
pub open spec fn with_content(h: Header, len: int) -> Header {
    Header { content_length: len as u16, ..h }
}

/// One read when `s` follows the header `h` and `held` has arrived of its body before.
///
/// A body that is a stream of bytes and has not arrived whole is handed out in parts, each
/// under a header without padding. Another one is held until it is whole. A record with a body
/// does not wait for its padding; one without a body does.
pub open spec fn read_body(h: Header, held: Seq<u8>, s: Seq<u8>) -> Step {
    let n = h.content_length as int;
    if s.len() < n {
        let left = with_content(h, n - s.len());
        if is_whole(h.rtype) {
            Step {
                at: Place { current: Some(left), held: held + s, skip: 0 },
                rest: Seq::empty(),
                fragment: None,
            }
        } else {
            Step {
                at: within(left),
                rest: Seq::empty(),
                fragment: if s.len() == 0 {
                    None
                } else {
                    Some(
                        Fragment {
                            header: Header {
                                content_length: s.len() as u16,
                                padding_length: 0,
                                ..h
                            },
                            payload: s,
                        },
                    )
                },
            }
        }
    } else {
        let payload = held + s.take(n);
        let after = s.skip(n);
        let fragment = Fragment { header: with_content(h, payload.len() as int), payload };
        if after.len() >= h.padding_length {
            Step {
                at: start(),
                rest: after.skip(h.padding_length as int),
                fragment: Some(fragment),
            }
        } else if payload.len() == 0 {
            Step { at: within(h), rest: after, fragment: None }
        } else if is_whole(h.rtype) {
            Step {
                at: Place { skip: h.padding_length - after.len(), ..start() },
                rest: Seq::empty(),
                fragment: Some(fragment),
            }
        } else {
            Step { at: within(with_content(h, 0)), rest: after, fragment: Some(fragment) }
        }
    }
}

/// One read of `s` without padding to be passed over first. Without eight bytes of a new
/// header, or with a header of unknown type, nothing happens.
pub open spec fn read_from(current: Option<Header>, held: Seq<u8>, s: Seq<u8>) -> Step {
    match current {
        Some(h) => read_body(h, held, s),
        None => match read_header(s) {
            Some(h) => read_body(h, Seq::empty(), s.skip(Header::HEADER_LEN as int)),
            None => Step { at: start(), rest: s, fragment: None },
        },
    }
}

/// One read of `s`.
pub open spec fn read_step(at: Place, s: Seq<u8>) -> Step {
    if at.skip == 0 {
        read_from(at.current, at.held, s)
    } else if s.len() < at.skip {
        Step {
            at: Place { skip: at.skip - s.len(), ..start() },
            rest: Seq::empty(),
            fragment: None,
        }
    } else {
        read_from(None, Seq::empty(), s.skip(at.skip))
    }
}

/// Whether `s` starts with a header of unknown type.
pub open spec fn unknown_header(s: Seq<u8>) -> bool {
    s.len() >= Header::HEADER_LEN && read_header(s) is None
}

/// Whether what was read can be taken apart.
pub open spec fn readable(f: Fragment) -> bool {
    body_of(f.payload, f.header.rtype) is Some
}

/// Whether one read of `s` makes sense: a new header is of a known type, and what is read
/// can be taken apart.
pub open spec fn step_readable(at: Place, s: Seq<u8>) -> bool {
    let step = read_step(at, s);
    match step.fragment {
        Some(f) => readable(f),
        None => step.at == start() ==> !unknown_header(step.rest),
    }
}

/// A header that is under way has something to wait for, and only the body of a record that is
/// handed out whole is held.
pub open spec fn waiting(at: Place) -> bool {
    &&& at.current matches Some(h) ==> h.content_length > 0 || h.padding_length > 0
    &&& at.held.len() > 0 ==> {
        &&& at.current matches Some(h) && {
            &&& is_whole(h.rtype)
            &&& h.content_length > 0
            &&& at.held.len() + h.content_length <= Body::MAX_LENGTH
        }
    }
    &&& 0 <= at.skip <= 255
    &&& at.skip > 0 ==> at.current is None
}

/// to get a stream of records from a stream of bytes
/// a record does not need to be completely available
pub struct RecordReader {
    pub current: Option<Header>,
    /// What has arrived of a body that is handed out whole.
    pub held: Bytes,
    /// How many bytes of padding are still to be passed over.
    pub skip: u8,
}

impl View for RecordReader {
    type V = Place;

    open spec fn view(&self) -> Place {
        Place { current: self.current, held: contents(self.held), skip: self.skip as int }
    }
}

/// Whether a record of type `t` is handed out whole.
fn handed_out_whole(t: RecordType) -> (r: bool)
    ensures
        r == is_whole(t),
{
    match t {
        RecordType::EndRequest => true,
        RecordType::UnknownType => true,
        _ => false,
    }
}

/// The bytes of `a` and then those of `b`.
fn joined(a: &Bytes, b: &Bytes) -> (r: Bytes)
    requires
        contents(*a).len() + contents(*b).len() <= Body::MAX_LENGTH,
    ensures
        contents(r) == contents(*a) + contents(*b),
{
    let mut buf = BytesMut::with_capacity(a.len() + b.len());
    put_slice(&mut buf, chunk(a));
    put_slice(&mut buf, chunk(b));
    assert(written(buf) =~= contents(*a) + contents(*b));
    buf.freeze()
}

impl RecordReader {
    pub open spec fn wf(self) -> bool {
        waiting(self@)
    }

    pub fn new() -> (r: RecordReader)
        ensures
            r.wf(),
            r@ == start(),
    {
        let r = RecordReader { current: None, held: Bytes::new(), skip: 0 };
        assert(r@ =~= start());
        r
    }

    /// Passes over what `data` holds of padding that was missing.
    fn skip_padding(&mut self, data: &mut Bytes) -> (done: bool)
        requires
            old(self).wf(),
        ensures
            final(self).wf(),
            final(self).current == old(self).current,
            final(self).held == old(self).held,
            done == (contents(*old(data)).len() >= old(self).skip),
            done ==> final(self).skip == 0 && contents(*final(data)) == contents(
                *old(data),
            ).skip(old(self).skip as int),
            !done ==> final(self).skip == old(self).skip - contents(*old(data)).len()
                && contents(*final(data)) == Seq::<u8>::empty(),
    {
        let len: usize = data.len();
        if len < self.skip as usize {
            self.skip = self.skip - len as u8;
            advance(data, len);
            assert(contents(*data) =~= Seq::<u8>::empty());
            false
        } else {
            advance(data, self.skip as usize);
            self.skip = 0;
            true
        }
    }

    /// Reads what `data` holds of the next record, `None` if that is nothing.
    pub fn read(&mut self, data: &mut Bytes) -> (r: Option<Record>)
        requires
            old(self).wf(),
            step_readable(old(self)@, contents(*old(data))),
        ensures
            final(self).wf(),
            ({
                let step = read_step(old(self)@, contents(*old(data)));
                &&& final(self)@ == step.at
                &&& contents(*final(data)) == step.rest
                &&& match r {
                    None => step.fragment is None,
                    Some(rec) => step.fragment matches Some(f) && {
                        &&& rec.wf()
                        &&& rec.header == f.header
                        &&& body_of(f.payload, f.header.rtype) == Some(rec.body@)
                    },
                }
            }),
    {
        let ghost step = read_step(self@, contents(*data));
        let ghost held = contents(self.held);
        if !self.skip_padding(data) {
            assert(self@ =~= step.at);
            return None;
        }
        assert(contents(*old(data)).skip(0) =~= contents(*old(data)));
        let full_header = match self.current.take() {
            Some(h) => h,
            None => {
                //dont alter data until we have a whole header to read
                if data.len() < Header::HEADER_LEN {
                    assert(self@ =~= start());
                    return None;
                }
                assert(!unknown_header(contents(*data)));
                assert(held =~= Seq::<u8>::empty());
                Header::parse(data)
            },
        };
        self.read_rest(full_header, data)
    }

    /// Reads what `data` holds of the body behind `full_header`, and of the padding.
    fn read_rest(&mut self, full_header: Header, data: &mut Bytes) -> (r: Option<Record>)
        requires
            old(self).current is None,
            old(self).skip == 0,
            contents(old(self).held).len() > 0 ==> {
                &&& is_whole(full_header.rtype)
                &&& full_header.content_length > 0
                &&& contents(old(self).held).len() + full_header.content_length <= Body::MAX_LENGTH
            },
            ({
                let step = read_body(full_header, contents(old(self).held), contents(*old(data)));
                step.fragment matches Some(f) ==> readable(f)
            }),
        ensures
            final(self).wf(),
            ({
                let step = read_body(full_header, contents(old(self).held), contents(*old(data)));
                &&& final(self)@ == step.at
                &&& contents(*final(data)) == step.rest
                &&& match r {
                    None => step.fragment is None,
                    Some(rec) => step.fragment matches Some(f) && {
                        &&& rec.wf()
                        &&& rec.header == f.header
                        &&& body_of(f.payload, f.header.rtype) == Some(rec.body@)
                    },
                }
            }),
    {
        let ghost held = contents(self.held);
        let ghost s = contents(*data);
        let ghost step = read_body(full_header, held, s);
        let whole = handed_out_whole(full_header.rtype);
        let mut body_len: usize = full_header.content_length as usize;
        let mut header = if data.len() < body_len {
            body_len = data.len();
            let mut nh = full_header;
            nh.content_length = body_len as u16;
            nh.padding_length = 0;

            //store rest for next time
            let mut left = full_header;
            left.content_length = full_header.content_length - body_len as u16;
            self.current = Some(left);
            assert(left == with_content(full_header, full_header.content_length - s.len()));
            if whole {
                //no part of this body is handed out
                self.held = joined(&self.held, data);
                advance(data, body_len);
                assert(contents(*data) =~= Seq::<u8>::empty());
                assert(self@ =~= step.at);
                return None;
            }
            //we need to enforce a read if we are out of data
            if body_len < 1 {
                assert(s =~= Seq::<u8>::empty());
                assert(self@ =~= step.at);
                return None;
            }
            nh
        } else {
            full_header
        };

        let part = slice(data, 0, body_len);
        advance(data, body_len);
        assert(contents(part) =~= s.take(body_len as int));
        assert(contents(*data) =~= s.skip(body_len as int));
        let body = if whole {
            let body = joined(&self.held, &part);
            self.held = Bytes::new();
            header.content_length = body.len() as u16;
            body
        } else {
            assert(held + contents(part) =~= contents(part));
            part
        };
        assert(contents(self.held) =~= Seq::<u8>::empty());

        if data.len() < header.padding_length as usize {
            //only possible if last/only fragment -> self.current is None
            if body.len() < 1 {
                //no data at all
                self.current = Some(header);
                assert(self@ =~= step.at);
                return None;
            }
            if whole {
                self.skip = header.padding_length - data.len() as u8;
                let len: usize = data.len();
                advance(data, len);
                assert(contents(*data) =~= Seq::<u8>::empty());
            } else {
                let mut nh = header;
                nh.content_length = 0;
                assert(nh == with_content(full_header, 0));
                self.current = Some(nh);
            }
        } else {
            let ghost after = contents(*data);
            advance(data, header.padding_length as usize);
            assert(header.padding_length == 0 ==> contents(*data) =~= after);
        }
        proof {
            if s.len() < full_header.content_length {
                assert(s.take(s.len() as int) =~= s);
                assert(contents(*data) =~= Seq::<u8>::empty());
            }
            assert(contents(*data) =~= step.rest);
            assert(self@ =~= step.at);
            assert(contents(body) =~= step.fragment->0.payload);
            assert(header == step.fragment->0.header);
        }
        let body = Record::parse_body(body, header.rtype);
        Some(Record { header, body })
    }

    /// Whether `read` can be called on `data`.
    pub fn is_readable(&self, data: &Bytes) -> (r: bool)
        requires
            self.wf(),
        ensures
            r == step_readable(self@, contents(*data)),
    {
        let ghost all = contents(*data);
        let ghost step = read_step(self@, all);
        let ghost held = contents(self.held);
        let mut rest = data.clone();
        if data.len() < self.skip as usize {
            return true;
        }
        advance(&mut rest, self.skip as usize);
        assert(all.skip(0) =~= all);
        let header = match self.current {
            Some(h) => h,
            None => {
                if rest.len() < Header::HEADER_LEN {
                    return true;
                }
                let code: u8 = chunk(&rest)[1];
                if RecordType::try_from(code).is_err() {
                    return false;
                }
                assert(held =~= Seq::<u8>::empty());
                Header::parse(&mut rest)
            },
        };
        let ghost s = contents(rest);
        assert(step == read_body(header, held, s));
        let whole = handed_out_whole(header.rtype);
        let len: usize = rest.len();
        let body_len: usize = header.content_length as usize;
        if len < body_len {
            if len == 0 || whole {
                return true;
            }
            return Record::body_is_readable(&rest, header.rtype);
        }
        let part = slice(&rest, 0, body_len);
        assert(contents(part) =~= s.take(body_len as int));
        let body = if whole {
            joined(&self.held, &part)
        } else {
            assert(held + contents(part) =~= contents(part));
            part
        };
        if len - body_len < header.padding_length as usize && body.len() == 0 {
            return true;
        }
        assert(contents(body) =~= step.fragment->0.payload);
        Record::body_is_readable(&body, header.rtype)
    }
}

// ---------------------------------------------------------------- reading all there is

/// What reading does until nothing more can be read.
#[verifier::ext_equal]
pub struct Reading {
    pub at: Place,
    pub rest: Seq<u8>,
    pub fragments: Seq<Fragment>,
}

/// All reads of `s`.
pub open spec fn read_all(at: Place, s: Seq<u8>) -> Reading
    decreases s.len(),
{
    let step = read_step(at, s);
    match step.fragment {
        None => Reading { at: step.at, rest: step.rest, fragments: Seq::empty() },
        Some(f) => if step.rest.len() < s.len() {
            let more = read_all(step.at, step.rest);
            Reading { at: more.at, rest: more.rest, fragments: seq![f] + more.fragments }
        } else {
            Reading { at: step.at, rest: step.rest, fragments: seq![f] }
        },
    }
}

/// Whether all reads of `s` make sense.
pub open spec fn all_readable(at: Place, s: Seq<u8>) -> bool
    decreases s.len(),
{
    let step = read_step(at, s);
    &&& step_readable(at, s)
    &&& step.fragment is Some && step.rest.len() < s.len() ==> all_readable(step.at, step.rest)
}

/// A read that hands something out takes bytes, and what is waited for afterwards makes sense.
pub proof fn lemma_step(at: Place, s: Seq<u8>)
    requires
        waiting(at),
    ensures
        waiting(read_step(at, s).at),
        read_step(at, s).rest.len() <= s.len(),
        read_step(at, s).fragment is Some ==> read_step(at, s).rest.len() < s.len(),
        read_step(at, s).fragment matches Some(f) ==> f.payload.len() <= Body::MAX_LENGTH,
{
}

/// The bytes of type `t` for the request `id`, in the order in which they were read.
pub open spec fn stream(fragments: Seq<Fragment>, t: RecordType, id: u16) -> Seq<u8>
    decreases fragments.len(),
{
    if fragments.len() == 0 {
        Seq::empty()
    } else {
        let f = fragments[0];
        let more = stream(fragments.drop_first(), t, id);
        if f.header.rtype == t && f.header.request_id == id {
            f.payload + more
        } else {
            more
        }
    }
}

/// Whether something of type `t` was read for the request `id`.
pub open spec fn seen(fragments: Seq<Fragment>, t: RecordType, id: u16) -> bool
    decreases fragments.len(),
{
    if fragments.len() == 0 {
        false
    } else {
        let f = fragments[0];
        f.header.rtype == t && f.header.request_id == id || seen(fragments.drop_first(), t, id)
    }
}

/// What was read of the types that are handed out whole, in order.
pub open spec fn wholes(fragments: Seq<Fragment>) -> Seq<Fragment>
    decreases fragments.len(),
{
    if fragments.len() == 0 {
        Seq::empty()
    } else {
        let f = fragments[0];
        let more = wholes(fragments.drop_first());
        if is_whole(f.header.rtype) {
            seq![f] + more
        } else {
            more
        }
    }
}

// ---------------------------------------------------------------- laws

/// What is read first and what is read then.
pub proof fn lemma_concat(a: Seq<Fragment>, b: Seq<Fragment>, t: RecordType, id: u16)
    ensures
        stream(a + b, t, id) == stream(a, t, id) + stream(b, t, id),
        seen(a + b, t, id) == (seen(a, t, id) || seen(b, t, id)),
        wholes(a + b) == wholes(a) + wholes(b),
    decreases a.len(),
{
    if a.len() == 0 {
        assert(a + b =~= b);
        assert(stream(a + b, t, id) =~= stream(a, t, id) + stream(b, t, id));
        assert(wholes(a + b) =~= wholes(a) + wholes(b));
    } else {
        assert((a + b).drop_first() =~= a.drop_first() + b);
        lemma_concat(a.drop_first(), b, t, id);
        assert(stream(a + b, t, id) =~= stream(a, t, id) + stream(b, t, id));
        assert(wholes(a + b) =~= wholes(a) + wholes(b));
    }
}

/// What a fragment adds to those behind it.
pub proof fn lemma_first(f: Fragment, more: Seq<Fragment>, t: RecordType, id: u16)
    ensures
        stream(seq![f] + more, t, id) == if f.header.rtype == t && f.header.request_id == id {
            f.payload + stream(more, t, id)
        } else {
            stream(more, t, id)
        },
        seen(seq![f] + more, t, id) == (f.header.rtype == t && f.header.request_id == id || seen(
            more,
            t,
            id,
        )),
        wholes(seq![f] + more) == if is_whole(f.header.rtype) {
            seq![f] + wholes(more)
        } else {
            wholes(more)
        },
{
    assert((seq![f] + more).drop_first() =~= more);
}

/// Two readings that leave the same behind, carry the same bytes, and hand out the same
/// records of the types that are handed out whole.
pub open spec fn same_reading(x: Reading, y: Reading) -> bool {
    &&& x.at == y.at
    &&& x.rest == y.rest
    &&& forall|t: RecordType, id: u16| #[trigger]
        stream(x.fragments, t, id) == stream(y.fragments, t, id)
    &&& forall|t: RecordType, id: u16| #[trigger]
        seen(x.fragments, t, id) == seen(y.fragments, t, id)
    &&& wholes(x.fragments) == wholes(y.fragments)
}

/// A reading with `f` before what it read.
spec fn prepend(f: Fragment, r: Reading) -> Reading {
    Reading { at: r.at, rest: r.rest, fragments: seq![f] + r.fragments }
}

proof fn lemma_prepend(f: Fragment, x: Reading, y: Reading)
    requires
        same_reading(x, y),
    ensures
        same_reading(prepend(f, x), prepend(f, y)),
{
    assert forall|t: RecordType, id: u16|
        #![trigger stream(prepend(f, x).fragments, t, id)]
        #![trigger seen(prepend(f, x).fragments, t, id)]
        stream(prepend(f, x).fragments, t, id) == stream(prepend(f, y).fragments, t, id) && seen(
            prepend(f, x).fragments,
            t,
            id,
        ) == seen(prepend(f, y).fragments, t, id) by {
        lemma_first(f, x.fragments, t, id);
        lemma_first(f, y.fragments, t, id);
        assert(stream(x.fragments, t, id) == stream(y.fragments, t, id));
        assert(seen(x.fragments, t, id) == seen(y.fragments, t, id));
    }
    lemma_first(f, x.fragments, RecordType::Data, 0);
    lemma_first(f, y.fragments, RecordType::Data, 0);
}

/// Whether `f` carries what `f1` and `f2` carry together, a stream of bytes.
spec fn merges(f: Fragment, f1: Fragment, f2: Fragment) -> bool {
    &&& f1.header.rtype == f.header.rtype
    &&& f2.header.rtype == f.header.rtype
    &&& f1.header.request_id == f.header.request_id
    &&& f2.header.request_id == f.header.request_id
    &&& f.payload == f1.payload + f2.payload
    &&& !is_whole(f.header.rtype)
}

/// Two fragments of one record in place of one.
proof fn lemma_merge(f: Fragment, f1: Fragment, f2: Fragment, more: Reading)
    requires
        merges(f, f1, f2),
    ensures
        same_reading(prepend(f1, prepend(f2, more)), prepend(f, more)),
{
    let x = prepend(f1, prepend(f2, more)).fragments;
    let y = prepend(f, more).fragments;
    assert forall|t: RecordType, id: u16|
        #![trigger stream(x, t, id)]
        #![trigger seen(x, t, id)]
        stream(x, t, id) == stream(y, t, id) && seen(x, t, id) == seen(y, t, id) by {
        lemma_first(f1, seq![f2] + more.fragments, t, id);
        lemma_first(f2, more.fragments, t, id);
        lemma_first(f, more.fragments, t, id);
        let rest = stream(more.fragments, t, id);
        assert(f1.payload + (f2.payload + rest) =~= f.payload + rest);
    }
    lemma_first(f1, seq![f2] + more.fragments, RecordType::Data, 0);
    lemma_first(f2, more.fragments, RecordType::Data, 0);
    lemma_first(f, more.fragments, RecordType::Data, 0);
}

/// The header at the start does not depend on what follows it.
pub proof fn lemma_header_prefix(a: Seq<u8>, b: Seq<u8>)
    requires
        a.len() >= Header::HEADER_LEN,
    ensures
        read_header(a + b) == read_header(a),
        (a + b).skip(Header::HEADER_LEN as int) == a.skip(Header::HEADER_LEN as int) + b,
{
    assert((a + b).skip(2)[0] == a.skip(2)[0]);
    assert((a + b).skip(2)[1] == a.skip(2)[1]);
    assert((a + b).skip(4)[0] == a.skip(4)[0]);
    assert((a + b).skip(4)[1] == a.skip(4)[1]);
    assert((a + b).skip(Header::HEADER_LEN as int) =~= a.skip(Header::HEADER_LEN as int) + b);
}

/// A body that is cut and handed out in parts: what is left of it is read from `b`.
proof fn lemma_cut_body(h: Header, t: Seq<u8>, b: Seq<u8>)
    requires
        !is_whole(h.rtype),
        0 < t.len() < h.content_length,
        b.len() > 0,
    ensures
        ({
            let none = Seq::<u8>::empty();
            let left = with_content(h, h.content_length - t.len());
            let first = read_body(h, none, t);
            let second = read_body(left, none, b);
            let whole = read_body(h, none, t + b);
            &&& first.at == within(left)
            &&& first.rest == none
            &&& whole.at == second.at
            &&& whole.rest == second.rest
            &&& first.fragment is Some
            &&& second.fragment is Some
            &&& whole.fragment is Some
            &&& merges(whole.fragment->0, first.fragment->0, second.fragment->0)
        }),
{
    let none = Seq::<u8>::empty();
    let n = h.content_length as int;
    let k = n - t.len();
    if b.len() >= k {
        assert((t + b).skip(n) =~= b.skip(k));
        assert(none + (t + b).take(n) =~= t + (none + b.take(k)));
    }
}

/// Padding of a stream that is cut: what is left of it is skipped by a read without bytes.
proof fn lemma_cut_padding(h: Header, t: Seq<u8>, b: Seq<u8>)
    requires
        !is_whole(h.rtype),
        0 < h.content_length <= t.len() < h.content_length + h.padding_length,
    ensures
        ({
            let none = Seq::<u8>::empty();
            let done = with_content(h, 0);
            let first = read_body(h, none, t);
            let second = read_body(done, none, first.rest + b);
            let whole = read_body(h, none, t + b);
            &&& first.at == within(done)
            &&& first.fragment is Some
            &&& whole.fragment is Some
            &&& whole.at == second.at
            &&& whole.rest == second.rest
            &&& second.fragment is None ==> whole.fragment == first.fragment
            &&& second.fragment is Some ==> merges(
                whole.fragment->0,
                first.fragment->0,
                second.fragment->0,
            )
        }),
{
    let none = Seq::<u8>::empty();
    let n = h.content_length as int;
    let after = t.skip(n) + b;
    assert((t + b).take(n) =~= t.take(n));
    assert((t + b).skip(n) =~= after);
    assert(after.skip(0) =~= after);
    assert(none + t.take(n) + (none + after.take(0)) =~= none + t.take(n));
}

/// Padding of a record that was handed out whole is passed over.
proof fn lemma_cut_whole(h: Header, held: Seq<u8>, t: Seq<u8>, b: Seq<u8>)
    requires
        is_whole(h.rtype),
        h.content_length <= t.len() < h.content_length + h.padding_length,
        held.len() + h.content_length > 0,
    ensures
        ({
            let first = read_body(h, held, t);
            let whole = read_body(h, held, t + b);
            let k = first.at.skip;
            &&& first.at == Place { skip: k, ..start() }
            &&& 0 < k <= 255
            &&& first.rest == Seq::<u8>::empty()
            &&& first.fragment is Some
            &&& whole.fragment == first.fragment
            &&& b.len() >= k ==> whole.at == start() && whole.rest == b.skip(k)
            &&& b.len() < k ==> whole.at == Place { skip: k - b.len(), ..start() } && whole.rest
                == Seq::<u8>::empty()
        }),
{
    let n = h.content_length as int;
    let pad = h.padding_length as int;
    assert((t + b).take(n) =~= t.take(n));
    assert((t + b).skip(n) =~= t.skip(n) + b);
    let k = pad - (t.len() - n);
    if b.len() >= k {
        assert((t.skip(n) + b).skip(pad) =~= b.skip(k));
    }
}

/// A record that is there whole.
proof fn lemma_not_cut(h: Header, held: Seq<u8>, t: Seq<u8>, b: Seq<u8>)
    requires
        t.len() >= h.content_length + h.padding_length,
    ensures
        read_body(h, held, t + b).at == read_body(h, held, t).at,
        read_body(h, held, t + b).fragment == read_body(h, held, t).fragment,
        read_body(h, held, t + b).rest == read_body(h, held, t).rest + b,
{
    let n = h.content_length as int;
    let pad = h.padding_length as int;
    assert((t + b).take(n) =~= t.take(n));
    assert((t + b).skip(n) =~= t.skip(n) + b);
    assert((t.skip(n) + b).skip(pad) =~= t.skip(n).skip(pad) + b);
}

/// Reading further, one step at a time.
proof fn lemma_unfold(at: Place, s: Seq<u8>)
    requires
        waiting(at),
        read_step(at, s).fragment is Some,
    ensures
        read_all(at, s) == prepend(
            read_step(at, s).fragment->0,
            read_all(read_step(at, s).at, read_step(at, s).rest),
        ),
{
    lemma_step(at, s);
}

/// What follows a step depends on the step alone.
proof fn lemma_same_step(p: Place, s: Seq<u8>, q: Place, u: Seq<u8>)
    requires
        waiting(p),
        waiting(q),
        read_step(p, s) == read_step(q, u),
    ensures
        read_all(p, s) == read_all(q, u),
{
    lemma_step(p, s);
    lemma_step(q, u);
}

/// After a read that hands nothing out, another one hands nothing out either.
proof fn lemma_idle(at: Place, s: Seq<u8>)
    requires
        waiting(at),
        read_step(at, s).fragment is None,
    ensures
        read_all(read_step(at, s).at, read_step(at, s).rest) == read_all(at, s),
{
    lemma_no_step(at, s, Seq::empty());
    let step = read_step(at, s);
    assert(step.rest + Seq::<u8>::empty() =~= step.rest);
    assert(s + Seq::<u8>::empty() =~= s);
}

/// Padding that is missing is passed over, as far as it has arrived.
proof fn lemma_padding_cut(at: Place, a: Seq<u8>, b: Seq<u8>)
    requires
        waiting(at),
        a.len() < at.skip,
    ensures
        read_step(at, a).rest + b == b,
        read_step(read_step(at, a).at, b) == read_step(at, a + b),
{
    let step = read_step(at, a);
    assert(step.rest + b =~= b);
    let k = at.skip - a.len();
    if b.len() >= k {
        assert((a + b).skip(at.skip) =~= b.skip(k));
    }
}

/// Behind padding that was missing, reading goes on.
proof fn lemma_padding_done(at: Place, a: Seq<u8>, b: Seq<u8>)
    requires
        waiting(at),
        0 < at.skip <= a.len(),
    ensures
        read_step(at, a) == read_step(start(), a.skip(at.skip)),
        read_step(at, a + b) == read_step(start(), a.skip(at.skip) + b),
{
    assert((a + b).skip(at.skip) =~= a.skip(at.skip) + b);
}

/// A read of `a` that hands nothing out changes nothing for what follows.
proof fn lemma_no_step(at: Place, a: Seq<u8>, b: Seq<u8>)
    requires
        waiting(at),
        read_step(at, a).fragment is None,
    ensures
        read_all(read_step(at, a).at, read_step(at, a).rest + b) == read_all(at, a + b),
{
    let step = read_step(at, a);
    lemma_step(at, a);
    if at.skip > a.len() {
        lemma_padding_cut(at, a, b);
        lemma_same_step(step.at, b, at, a + b);
    } else if at.skip > 0 {
        let rest = a.skip(at.skip);
        lemma_padding_done(at, a, b);
        lemma_no_step_here(start(), rest, b);
        lemma_same_step(start(), rest + b, at, a + b);
    } else {
        lemma_no_step_here(at, a, b);
    }
}

proof fn lemma_no_step_here(at: Place, a: Seq<u8>, b: Seq<u8>)
    requires
        waiting(at),
        at.skip == 0,
        read_step(at, a).fragment is None,
    ensures
        read_all(read_step(at, a).at, read_step(at, a).rest + b) == read_all(at, a + b),
{
    let step = read_step(at, a);
    lemma_step(at, a);
    match at.current {
        Some(h) => {
            lemma_no_body(h, at.held, a, b);
            lemma_same_step(step.at, step.rest + b, at, a + b);
        },
        None => {
            if a.len() >= Header::HEADER_LEN {
                lemma_header_prefix(a, b);
                if let Some(h) = read_header(a) {
                    let t = a.skip(Header::HEADER_LEN as int);
                    lemma_no_body(h, Seq::empty(), t, b);
                    lemma_same_step(step.at, step.rest + b, at, a + b);
                }
            }
            if read_header(a) is None {
                assert(at =~= start());
            }
        },
    }
}

proof fn lemma_no_body(h: Header, held: Seq<u8>, t: Seq<u8>, b: Seq<u8>)
    requires
        read_body(h, held, t).fragment is None,
        held.len() > 0 ==> is_whole(h.rtype),
        held.len() + h.content_length <= Body::MAX_LENGTH,
    ensures
        ({
            let step = read_body(h, held, t);
            &&& step.at.skip == 0
            &&& step.at.current is Some
            &&& read_step(step.at, step.rest + b) == read_body(h, held, t + b)
        }),
{
    let step = read_body(h, held, t);
    let n = h.content_length as int;
    let none = Seq::<u8>::empty();
    if t.len() < n {
        assert(step.rest + b =~= b);
        let k = n - t.len();
        if is_whole(h.rtype) {
            if b.len() >= k {
                assert((t + b).skip(n) =~= b.skip(k));
                assert(held + t + b.take(k) =~= held + (t + b).take(n));
            } else {
                assert(held + t + b =~= held + (t + b));
            }
        } else {
            assert(t =~= none);
            assert(t + b =~= b);
            assert(held =~= none);
        }
    } else {
        assert(t.skip(0) =~= t);
        assert(step.rest =~= t);
        assert(held =~= none);
    }
}

/// One read of `a` that hands something out, and then all reads of what is left and `b`, are
/// all reads of `a + b`.
proof fn lemma_first_step(at: Place, a: Seq<u8>, b: Seq<u8>)
    requires
        waiting(at),
        read_step(at, a).fragment is Some,
    ensures
        continues(at, a, b),
{
    if at.skip > 0 {
        let rest = a.skip(at.skip);
        lemma_padding_done(at, a, b);
        lemma_first_step_here(start(), rest, b);
        lemma_same_step(start(), rest + b, at, a + b);
    } else {
        lemma_first_step_here(at, a, b);
    }
}

/// Whether a read of `s` comes to the body behind the header `h`, of which `held` has arrived
/// before, and `t` follows.
spec fn opens(at: Place, s: Seq<u8>, h: Header, held: Seq<u8>, t: Seq<u8>) -> bool {
    &&& waiting(at)
    &&& at.skip == 0
    &&& match at.current {
        Some(c) => c == h && at.held == held && s == t,
        None => read_header(s) == Some(h) && held == Seq::<u8>::empty() && t == s.skip(
            Header::HEADER_LEN as int,
        ),
    }
}

/// The same body is come to when more follows.
proof fn lemma_opens(at: Place, a: Seq<u8>, b: Seq<u8>, h: Header, held: Seq<u8>, t: Seq<u8>)
    requires
        opens(at, a, h, held, t),
    ensures
        read_step(at, a) == read_body(h, held, t),
        read_step(at, a + b) == read_body(h, held, t + b),
        held.len() > 0 ==> is_whole(h.rtype) && h.content_length > 0,
{
    if at.current is None {
        lemma_header_prefix(a, b);
    }
}

/// One read of `a`, and then all reads of what is left and `b`, are all reads of `a + b`.
spec fn continues(at: Place, a: Seq<u8>, b: Seq<u8>) -> bool {
    let step = read_step(at, a);
    let x = read_all(step.at, step.rest + b);
    same_reading(prepend(step.fragment->0, x), read_all(at, a + b))
}

proof fn lemma_first_of_body(
    at: Place,
    a: Seq<u8>,
    b: Seq<u8>,
    h: Header,
    held: Seq<u8>,
    t: Seq<u8>,
)
    requires
        opens(at, a, h, held, t),
        read_step(at, a).fragment is Some,
        t.len() < h.content_length,
    ensures
        continues(at, a, b),
{
    let step = read_step(at, a);
    lemma_opens(at, a, b, h, held, t);
    lemma_step(at, a);
    assert(held =~= Seq::empty());
    assert(step.rest + b =~= b);
    if b.len() == 0 {
        assert(a + b =~= a);
        lemma_unfold(at, a);
    } else {
        let whole = read_step(at, a + b);
        lemma_cut_body(h, t, b);
        lemma_unfold(at, a + b);
        lemma_unfold(step.at, b);
        let second = read_step(step.at, b);
        let y = read_all(whole.at, whole.rest);
        lemma_merge(whole.fragment->0, step.fragment->0, second.fragment->0, y);
    }
}

proof fn lemma_first_whole(
    at: Place,
    a: Seq<u8>,
    b: Seq<u8>,
    h: Header,
    held: Seq<u8>,
    t: Seq<u8>,
)
    requires
        opens(at, a, h, held, t),
        read_step(at, a).fragment is Some,
        h.content_length <= t.len() < h.content_length + h.padding_length,
        is_whole(h.rtype),
    ensures
        continues(at, a, b),
{
    let step = read_step(at, a);
    lemma_opens(at, a, b, h, held, t);
    lemma_step(at, a);
    lemma_cut_whole(h, held, t, b);
    lemma_unfold(at, a + b);
    assert(step.rest + b =~= b);
    let k = step.at.skip;
    if b.len() >= k {
        lemma_same_step(step.at, b, start(), b.skip(k));
    } else {
        lemma_idle(step.at, b);
    }
}

proof fn lemma_first_of_padding(
    at: Place,
    a: Seq<u8>,
    b: Seq<u8>,
    h: Header,
    held: Seq<u8>,
    t: Seq<u8>,
)
    requires
        opens(at, a, h, held, t),
        read_step(at, a).fragment is Some,
        h.content_length <= t.len() < h.content_length + h.padding_length,
        !is_whole(h.rtype),
    ensures
        continues(at, a, b),
{
    let step = read_step(at, a);
    let whole = read_step(at, a + b);
    lemma_opens(at, a, b, h, held, t);
    lemma_step(at, a);
    assert(held =~= Seq::empty());
    lemma_cut_padding(h, t, b);
    lemma_unfold(at, a + b);
    let second = read_step(step.at, step.rest + b);
    if second.fragment is Some {
        lemma_unfold(step.at, step.rest + b);
        let y = read_all(whole.at, whole.rest);
        lemma_merge(whole.fragment->0, step.fragment->0, second.fragment->0, y);
    } else {
        lemma_idle(step.at, step.rest + b);
    }
}

proof fn lemma_first_step_here(at: Place, a: Seq<u8>, b: Seq<u8>)
    requires
        waiting(at),
        at.skip == 0,
        read_step(at, a).fragment is Some,
    ensures
        continues(at, a, b),
{
    let (h, held, t) = match at.current {
        Some(h) => (h, at.held, a),
        None => (read_header(a)->0, Seq::empty(), a.skip(Header::HEADER_LEN as int)),
    };
    assert(opens(at, a, h, held, t));
    if t.len() < h.content_length {
        lemma_first_of_body(at, a, b, h, held, t);
    } else if t.len() < h.content_length + h.padding_length {
        if is_whole(h.rtype) {
            lemma_first_whole(at, a, b, h, held, t);
        } else {
            lemma_first_of_padding(at, a, b, h, held, t);
        }
    } else {
        lemma_opens(at, a, b, h, held, t);
        lemma_not_cut(h, held, t, b);
        lemma_unfold(at, a + b);
    }
}

/// Reading does not depend on how the bytes were cut into pieces: reading `a` and then `b`
/// behind what was left of `a` ends as reading `a + b` does, with the same bytes for each
/// type and request, and the same ends of requests.
pub proof fn law_reading_in_pieces(at: Place, a: Seq<u8>, b: Seq<u8>)
    requires
        waiting(at),
    ensures
        ({
            let first = read_all(at, a);
            let second = read_all(first.at, first.rest + b);
            same_reading(
                Reading {
                    at: second.at,
                    rest: second.rest,
                    fragments: first.fragments + second.fragments,
                },
                read_all(at, a + b),
            )
        }),
    decreases a.len(),
{
    let first = read_all(at, a);
    let second = read_all(first.at, first.rest + b);
    let step = read_step(at, a);
    lemma_step(at, a);
    match step.fragment {
        Some(f) => {
            let more = read_all(step.at, step.rest);
            law_reading_in_pieces(step.at, step.rest, b);
            let both = Reading {
                at: second.at,
                rest: second.rest,
                fragments: more.fragments + second.fragments,
            };
            assert(same_reading(both, read_all(step.at, step.rest + b)));
            lemma_prepend(f, both, read_all(step.at, step.rest + b));
            assert(first.fragments + second.fragments =~= seq![f] + both.fragments);
            lemma_first_step(at, a, b);
        },
        None => {
            assert(first.fragments + second.fragments =~= second.fragments);
            lemma_no_step(at, a, b);
        },
    }
}

/// What is read of bytes that arrive in pieces, each behind what was left of those before.
pub open spec fn read_pieces(at: Place, rest: Seq<u8>, pieces: Seq<Seq<u8>>) -> Reading
    decreases pieces.len(),
{
    if pieces.len() == 0 {
        Reading { at, rest, fragments: Seq::empty() }
    } else {
        let first = read_all(at, rest + pieces[0]);
        let more = read_pieces(first.at, first.rest, pieces.drop_first());
        Reading { at: more.at, rest: more.rest, fragments: first.fragments + more.fragments }
    }
}

/// However many pieces there are, they read as the whole does.
pub proof fn law_reading_in_any_pieces(at: Place, rest: Seq<u8>, pieces: Seq<Seq<u8>>)
    requires
        waiting(at),
        pieces.len() > 0,
    ensures
        same_reading(read_pieces(at, rest, pieces), read_all(at, rest + pieces.flatten())),
    decreases pieces.len(),
{
    let first = read_all(at, rest + pieces[0]);
    let tail = pieces.drop_first();
    let more = read_pieces(first.at, first.rest, tail);
    let r = read_pieces(at, rest, pieces);
    lemma_waiting(at, rest + pieces[0]);
    assert(rest + pieces.flatten() =~= rest + pieces[0] + tail.flatten());
    if tail.len() == 0 {
        assert(tail.flatten() =~= Seq::empty());
        assert(rest + pieces[0] + tail.flatten() =~= rest + pieces[0]);
        assert(r.fragments =~= first.fragments);
    } else {
        law_reading_in_any_pieces(first.at, first.rest, tail);
        let whole = read_all(first.at, first.rest + tail.flatten());
        law_reading_in_pieces(at, rest + pieces[0], tail.flatten());
        let both = first.fragments + whole.fragments;
        assert forall|t: RecordType, id: u16|
            #![trigger stream(r.fragments, t, id)]
            #![trigger seen(r.fragments, t, id)]
            stream(r.fragments, t, id) == stream(both, t, id) && seen(r.fragments, t, id) == seen(
                both,
                t,
                id,
            ) by {
            lemma_concat(first.fragments, more.fragments, t, id);
            lemma_concat(first.fragments, whole.fragments, t, id);
            assert(stream(more.fragments, t, id) == stream(whole.fragments, t, id));
            assert(seen(more.fragments, t, id) == seen(whole.fragments, t, id));
        }
        lemma_concat(first.fragments, more.fragments, RecordType::Data, 0);
        lemma_concat(first.fragments, whole.fragments, RecordType::Data, 0);
    }
}

/// Whether a record of type `t` can be taken apart, as far as the type tells.
pub open spec fn readable_type(t: RecordType) -> bool {
    match t {
        RecordType::StdOut => true,
        RecordType::StdErr => true,
        RecordType::GetValues => true,
        RecordType::GetValuesResult => true,
        RecordType::Params => true,
        _ => is_whole(t),
    }
}

/// Whether all that a reading handed out can be taken apart, and it did not end at the header
/// of an unknown type.
spec fn made_sense(r: Reading) -> bool {
    &&& forall|t: RecordType, id: u16| #[trigger] seen(r.fragments, t, id) ==> readable_type(t)
    &&& forall|i: int|
        0 <= i < wholes(r.fragments).len() ==> readable(#[trigger] wholes(r.fragments)[i])
    &&& r.at == start() ==> !unknown_header(r.rest)
}

/// One after the other: what `f` adds to what a reading handed out.
#[verifier::spinoff_prover]
proof fn lemma_made_sense_first(f: Fragment, more: Reading)
    ensures
        made_sense(prepend(f, more)) == (readable(f) && made_sense(more)),
{
    let t = f.header.rtype;
    let id = f.header.request_id;
    let r = prepend(f, more);
    let w = wholes(r.fragments);
    let v = wholes(more.fragments);
    assert forall|t2: RecordType, id2: u16|
        #![trigger seen(r.fragments, t2, id2)]
        #![trigger seen(more.fragments, t2, id2)]
        seen(r.fragments, t2, id2) == (t == t2 && id == id2 || seen(more.fragments, t2, id2)) by {
        lemma_first(f, more.fragments, t2, id2);
    }
    lemma_first(f, more.fragments, t, id);
    assert(seen(r.fragments, t, id));
    lemma_readable_type(f);
    if is_whole(t) {
        assert(w[0] == f);
        assert forall|i: int| 0 <= i < v.len() implies #[trigger] v[i] == w[i + 1] by {}
        if made_sense(r) {
            assert(readable(w[0]));
            assert forall|i: int| 0 <= i < v.len() implies readable(#[trigger] v[i]) by {
                assert(readable(w[i + 1]));
            }
        }
    }
}

/// What can be taken apart is of a type that can be, and of a stream that is all it takes.
proof fn lemma_readable_type(f: Fragment)
    ensures
        readable(f) ==> readable_type(f.header.rtype),
        !is_whole(f.header.rtype) ==> readable(f) == readable_type(f.header.rtype),
{
}

#[verifier::spinoff_prover]
proof fn lemma_made_sense(at: Place, s: Seq<u8>)
    requires
        waiting(at),
    ensures
        all_readable(at, s) == made_sense(read_all(at, s)),
    decreases s.len(),
{
    lemma_step(at, s);
    let step = read_step(at, s);
    match step.fragment {
        None => {
            let r = read_all(at, s);
            assert(forall|t: RecordType, id: u16| !#[trigger] seen(r.fragments, t, id));
        },
        Some(f) => {
            lemma_made_sense(step.at, step.rest);
            lemma_unfold(at, s);
            lemma_made_sense_first(f, read_all(step.at, step.rest));
        },
    }
}

/// Cutting the bytes into pieces makes nothing unreadable: all reads of `a + b` make sense if
/// and only if all reads of `a` do, and then all reads of `b` behind what was left.
pub proof fn law_readable_in_pieces(at: Place, a: Seq<u8>, b: Seq<u8>)
    requires
        waiting(at),
    ensures
        ({
            let first = read_all(at, a);
            all_readable(at, a + b) == (all_readable(at, a) && all_readable(
                first.at,
                first.rest + b,
            ))
        }),
{
    let first = read_all(at, a);
    let second = read_all(first.at, first.rest + b);
    let whole = read_all(at, a + b);
    let x = first.fragments;
    let y = second.fragments;
    lemma_waiting(at, a);
    lemma_made_sense(at, a);
    lemma_made_sense(first.at, first.rest + b);
    lemma_made_sense(at, a + b);
    law_reading_in_pieces(at, a, b);
    assert forall|t: RecordType, id: u16|
        #![trigger seen(x, t, id)]
        #![trigger seen(y, t, id)]
        #![trigger seen(whole.fragments, t, id)]
        seen(whole.fragments, t, id) == (seen(x, t, id) || seen(y, t, id)) by {
        lemma_concat(x, y, t, id);
        assert(seen(x + y, t, id) == seen(whole.fragments, t, id));
    }
    lemma_concat(x, y, RecordType::Data, 0);
    let v = wholes(x);
    let w = wholes(whole.fragments);
    assert(w == v + wholes(y));
    assert forall|i: int| 0 <= i < v.len() implies #[trigger] v[i] == w[i] by {}
    assert forall|i: int| 0 <= i < wholes(y).len() implies #[trigger] wholes(y)[i] == w[
        v.len() + i] by {}
    if made_sense(whole) {
        assert forall|i: int| 0 <= i < wholes(y).len() implies readable(
            #[trigger] wholes(y)[i],
        ) by {
            assert(readable(w[v.len() + i]));
        }
        assert forall|i: int| 0 <= i < v.len() implies readable(#[trigger] v[i]) by {
            assert(readable(w[i]));
        }
        if first.at == start() && unknown_header(first.rest) {
            lemma_header_prefix(first.rest, b);
            assert(second.rest == first.rest + b);
            assert(false);
        }
    }
}

/// What is left is the end of what there was.
#[verifier::spinoff_prover]
pub proof fn lemma_rest(at: Place, s: Seq<u8>)
    requires
        waiting(at),
    ensures
        ({
            let rest = read_all(at, s).rest;
            &&& rest.len() <= s.len()
            &&& rest == s.skip(s.len() - rest.len())
        }),
    decreases s.len(),
{
    let step = read_step(at, s);
    lemma_step(at, s);
    lemma_step_rest(at, s);
    if step.fragment is Some {
        lemma_unfold(at, s);
        lemma_rest(step.at, step.rest);
        lemma_ends(s, step.rest, read_all(step.at, step.rest).rest);
    }
}

/// Whether `rest` is the end of `s`.
spec fn ends(s: Seq<u8>, rest: Seq<u8>) -> bool {
    rest.len() <= s.len() && rest == s.skip(s.len() - rest.len())
}

proof fn lemma_ends(a: Seq<u8>, b: Seq<u8>, c: Seq<u8>)
    requires
        ends(a, b),
        ends(b, c),
    ensures
        ends(a, c),
{
    assert(c =~= a.skip(a.len() - c.len()));
}

proof fn lemma_skip_ends(s: Seq<u8>, n: int)
    requires
        0 <= n <= s.len(),
    ensures
        ends(s, s.skip(n)),
        ends(s, Seq::empty()),
        ends(s, s),
{
    assert(s.skip(s.len() as int) =~= Seq::empty());
    assert(s.skip(0) =~= s);
}

proof fn lemma_body_rest(h: Header, held: Seq<u8>, s: Seq<u8>)
    ensures
        ends(s, read_body(h, held, s).rest),
{
    let n = h.content_length as int;
    lemma_skip_ends(s, 0);
    if s.len() >= n {
        let after = s.skip(n);
        lemma_skip_ends(s, n);
        if after.len() >= h.padding_length {
            lemma_skip_ends(after, h.padding_length as int);
            lemma_ends(s, after, after.skip(h.padding_length as int));
        }
    }
}

proof fn lemma_from_rest(current: Option<Header>, held: Seq<u8>, s: Seq<u8>)
    ensures
        ends(s, read_from(current, held, s).rest),
{
    lemma_skip_ends(s, 0);
    match current {
        Some(h) => {
            lemma_body_rest(h, held, s);
        },
        None => if let Some(h) = read_header(s) {
            let t = s.skip(Header::HEADER_LEN as int);
            lemma_skip_ends(s, Header::HEADER_LEN as int);
            lemma_body_rest(h, Seq::empty(), t);
            lemma_ends(s, t, read_body(h, Seq::empty(), t).rest);
        },
    }
}

proof fn lemma_step_rest(at: Place, s: Seq<u8>)
    requires
        waiting(at),
    ensures
        ends(s, read_step(at, s).rest),
{
    lemma_skip_ends(s, 0);
    if at.skip == 0 {
        lemma_from_rest(at.current, at.held, s);
    } else if s.len() >= at.skip {
        let t = s.skip(at.skip);
        lemma_skip_ends(s, at.skip);
        lemma_from_rest(None, Seq::empty(), t);
        lemma_ends(s, t, read_from(None, Seq::empty(), t).rest);
    }
}

/// Reading further ends where something can be waited for.
pub proof fn lemma_waiting(at: Place, s: Seq<u8>)
    requires
        waiting(at),
    ensures
        waiting(read_all(at, s).at),
    decreases s.len(),
{
    lemma_step(at, s);
    let step = read_step(at, s);
    if step.fragment is Some {
        lemma_waiting(step.at, step.rest);
    }
}

} // verus!
