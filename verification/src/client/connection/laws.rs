//! What the requests of a connection get to see of what was read from it.
use std::task::Waker;
use vstd::prelude::*;

use crate::buffer::lemma_assoc;
use crate::client::connection::body::{after_frame, next_frame, released, FrameView};
use crate::client::connection::inner::{
    addressed, all_wakers, deliver, deliver_all, end_in, ends_of, error_in, errors_of, give_up,
    intake_after, key_of, read_by, reading, receive, running_after, sorted_keys, status_after,
    taken, woken, woken_all, woken_by, woken_keys, Fill, Intake,
};
use crate::client::connection::request::{
    accepted, body_chunk, body_stream, header_var, header_vars, lemma_accepted, params,
    request_fits, sent, skipped, Connection, MultiHeaderStrategy, RequestHead, Sent,
};
use crate::client::connection::requests::RequestView;
use crate::codec::laws::{
    law_abort_round_trip, law_begin_request_round_trip, law_chunk_round_trip,
    law_end_request_round_trip,
    law_full_records_round_trip, law_stream_round_trip, lemma_reads_join, reads_first,
    written_part,
};
use crate::codec::{
    all_sendable, chunk_bytes, full_records, item_bytes, sendable, stream_bytes, FCGIType,
};
use crate::error::SendError;
use crate::fastcgi::params::{encode_pairs, law_pairs_round_trip, read_pairs};
use crate::fastcgi::reader::{
    is_whole, law_reading_in_pieces, lemma_concat, lemma_rest, lemma_waiting, read_all,
    same_reading, seen, start, stream, waiting, wholes, Fragment, Place, Reading,
};
use crate::fastcgi::{BeginRequestBody, FastCGIRole, ProtoStatus, RecordType};
use crate::headers::names_of;

verus! {

/// A request that waits for what follows: what it held is kept, its standard output is put
/// behind that in order, and it has ended if it had or if its end was read. What was read for
/// other requests, or for none, does not show. No request comes or goes.
pub proof fn law_delivery(m: Map<usize, RequestView>, fs: Seq<Fragment>, id: u16)
    requires
        id > 0,
        m.dom().contains(key_of(id)),
    ensures
        deliver_all(m, fs).dom() == m.dom(),
        ({
            let before = m[key_of(id)];
            let after = deliver_all(m, fs)[key_of(id)];
            &&& before.chunks.len() <= after.chunks.len()
            &&& after.chunks.take(before.chunks.len() as int) == before.chunks
            &&& after.chunks.flatten() == before.chunks.flatten() + stream(
                fs,
                RecordType::StdOut,
                id,
            )
            &&& after.ended == (before.ended || seen(fs, RecordType::EndRequest, id))
            &&& after.permit == before.permit
        }),
    decreases fs.len(),
{
    let k = key_of(id);
    let before = m[k];
    if fs.len() == 0 {
        assert(before.chunks.take(before.chunks.len() as int) =~= before.chunks);
        assert(before.chunks.flatten() + stream(fs, RecordType::StdOut, id)
            =~= before.chunks.flatten());
    } else {
        let f = fs[0];
        let m1 = deliver(m, f);
        let mid = m1[k];
        assert(m1.dom() =~= m.dom());
        law_delivery(m1, fs.drop_first(), id);
        let after = deliver_all(m, fs)[k];
        assert(after == deliver_all(m1, fs.drop_first())[k]);
        let more = stream(fs.drop_first(), RecordType::StdOut, id);
        if f.header.request_id == id {
            assert(mid == receive(before, f));
            if f.header.rtype == RecordType::StdOut {
                if f.payload.len() > 0 {
                    before.chunks.lemma_flatten_push(f.payload);
                    assert(before.chunks.flatten() + f.payload + more =~= before.chunks.flatten()
                        + (f.payload + more));
                    assert(after.chunks.take(before.chunks.len() as int) =~= after.chunks.take(
                        mid.chunks.len() as int,
                    ).take(before.chunks.len() as int));
                    assert(mid.chunks.take(before.chunks.len() as int) =~= before.chunks);
                } else {
                    assert(f.payload + more =~= more);
                }
            }
        } else {
            assert(mid == before);
        }
    }
}

/// What a request gets to see does not depend on how the bytes from the transport were cut
/// into pieces.
pub proof fn law_delivery_in_pieces(
    m: Map<usize, RequestView>,
    at: Place,
    a: Seq<u8>,
    b: Seq<u8>,
    id: u16,
)
    requires
        waiting(at),
        id > 0,
        m.dom().contains(key_of(id)),
    ensures
        ({
            let first = read_all(at, a);
            let second = read_all(first.at, first.rest + b);
            let pieces = deliver_all(deliver_all(m, first.fragments), second.fragments);
            let whole = deliver_all(m, read_all(at, a + b).fragments);
            &&& pieces.dom() == whole.dom()
            &&& pieces[key_of(id)].chunks.flatten() == whole[key_of(id)].chunks.flatten()
            &&& pieces[key_of(id)].ended == whole[key_of(id)].ended
        }),
{
    let first = read_all(at, a);
    let second = read_all(first.at, first.rest + b);
    let whole = read_all(at, a + b);
    let both = Reading {
        at: second.at,
        rest: second.rest,
        fragments: first.fragments + second.fragments,
    };
    law_reading_in_pieces(at, a, b);
    assert(same_reading(both, whole));
    lemma_deliver_concat(m, first.fragments, second.fragments);
    law_delivery(m, both.fragments, id);
    law_delivery(m, whole.fragments, id);
    assert(stream(both.fragments, RecordType::StdOut, id) == stream(
        whole.fragments,
        RecordType::StdOut,
        id,
    ));
    assert(seen(both.fragments, RecordType::EndRequest, id) == seen(
        whole.fragments,
        RecordType::EndRequest,
        id,
    ));
}

/// A connection counts as closed if and only if there is no data: whatever has arrived, bytes
/// of it are taken.
pub proof fn law_closed_without_data(i: Intake, fill: Fill)
    ensures
        status_after(i, fill) is Closed <==> (fill matches Fill::Ready(b) && b@.len() == 0),
        fill matches Fill::Ready(b) ==> 0 <= taken(i, fill) <= b@.len(),
{
}

/// No byte is lost or moved by a poll: what was kept, and then what was left in the transport,
/// is what could not be read yet.
pub proof fn law_poll_keeps_bytes(i: Intake, fill: Fill)
    requires
        waiting(i.at),
    ensures
        fill matches Fill::Ready(b) ==> (b@.len() > 0 ==> intake_after(i, fill).early + b@.skip(
            taken(i, fill),
        ) == reading(i, b@).rest),
        waiting(intake_after(i, fill).at),
{
    if let Fill::Ready(b) = fill {
        let s = i.early + b@;
        let rest = reading(i, b@).rest;
        lemma_waiting(i.at, s);
        lemma_rest(i.at, s);
        let n = taken(i, fill);
        if rest.len() < b@.len() {
            assert(s.skip(s.len() - rest.len()) =~= b@.skip(n));
            assert(Seq::<u8>::empty() + b@.skip(n) =~= rest);
        } else {
            assert(rest + b@.skip(n) =~= rest);
        }
    }
}

/// What the requests get to see does not depend on how much one poll has before it: polling
/// with `first`, and then with what was left of it and `more` behind that, comes to the same as
/// polling once with all of it.
pub proof fn law_polls_in_pieces(
    m: Map<usize, RequestView>,
    i: Intake,
    first: Fill,
    second: Fill,
    whole: Fill,
    more: Seq<u8>,
    id: u16,
)
    requires
        waiting(i.at),
        id > 0,
        m.dom().contains(key_of(id)),
        first matches Fill::Ready(a) && a@.len() > 0 && (second matches Fill::Ready(b) && b@.len()
            > 0 && b@ == a@.skip(taken(i, first)) + more) && (whole matches Fill::Ready(c) && c@
            == a@ + more),
    ensures
        ({
            let k = key_of(id);
            let next = intake_after(i, first);
            let pieces = running_after(running_after(m, i, first), next, second);
            let once = running_after(m, i, whole);
            &&& pieces.dom() == once.dom()
            &&& pieces[k].chunks.flatten() == once[k].chunks.flatten()
            &&& pieces[k].ended == once[k].ended
            &&& said_of(errors_of(m.dom(), read_by(i, first)), id) + said_of(
                errors_of(m.dom(), read_by(next, second)),
                id,
            ) == said_of(errors_of(m.dom(), read_by(i, whole)), id)
            &&& ends_of(m.dom(), read_by(i, first)) + ends_of(m.dom(), read_by(next, second))
                == ends_of(m.dom(), read_by(i, whole))
            &&& intake_after(next, second).at == intake_after(i, whole).at
        }),
{
    let a = first->Ready_0@;
    let b = second->Ready_0@;
    let c = whole->Ready_0@;
    let s = i.early + a;
    let next = intake_after(i, first);
    law_poll_keeps_bytes(i, first);
    law_closed_without_data(i, first);
    law_closed_without_data(next, second);
    law_closed_without_data(i, whole);
    let kept = a.skip(taken(i, first));
    lemma_assoc(next.early, kept, more);
    lemma_assoc(i.early, a, more);
    assert(reading(next, b) == read_all(next.at, reading(i, a).rest + more));
    assert(reading(i, c) == read_all(i.at, s + more));
    law_reading_in_pieces(i.at, s, more);
    law_delivery_in_pieces(m, i.at, s, more, id);
    law_events_in_pieces(m.dom(), i.at, s, more, id);
}

/// What `errors` say of the request `id`, in order.
pub open spec fn said_of(errors: Seq<(u16, Seq<u8>)>, id: u16) -> Seq<u8>
    decreases errors.len(),
{
    if errors.len() == 0 {
        Seq::empty()
    } else {
        let more = said_of(errors.drop_first(), id);
        if errors[0].0 == id {
            errors[0].1 + more
        } else {
            more
        }
    }
}

/// Nothing that an application writes to standard error for a request that runs is lost or
/// changed, and nothing else is handed out for it.
pub proof fn law_errors_handed_out(keys: Set<usize>, fs: Seq<Fragment>, id: u16)
    requires
        id > 0,
        keys.contains(key_of(id)),
    ensures
        said_of(errors_of(keys, fs), id) == stream(fs, RecordType::StdErr, id),
    decreases fs.len(),
{
    if fs.len() > 0 {
        let f = fs[0];
        let more = errors_of(keys, fs.drop_first());
        law_errors_handed_out(keys, fs.drop_first(), id);
        if addressed(keys, f) && f.header.rtype == RecordType::StdErr {
            assert((error_in(keys, f) + more).drop_first() =~= more);
        } else {
            assert(error_in(keys, f) + more =~= more);
        }
    }
}

/// What is written to standard error, and which requests end and how, does not depend on how
/// the bytes from the transport were cut into pieces: each end is told once.
pub proof fn law_events_in_pieces(
    keys: Set<usize>,
    at: Place,
    a: Seq<u8>,
    b: Seq<u8>,
    id: u16,
)
    requires
        waiting(at),
        id > 0,
        keys.contains(key_of(id)),
    ensures
        ({
            let first = read_all(at, a);
            let second = read_all(first.at, first.rest + b);
            let fs = read_all(at, a + b).fragments;
            &&& said_of(errors_of(keys, first.fragments), id) + said_of(
                errors_of(keys, second.fragments),
                id,
            ) == said_of(errors_of(keys, fs), id)
            &&& ends_of(keys, first.fragments) + ends_of(keys, second.fragments) == ends_of(
                keys,
                fs,
            )
        }),
{
    let first = read_all(at, a);
    let second = read_all(first.at, first.rest + b);
    let whole = read_all(at, a + b);
    let both = first.fragments + second.fragments;
    law_reading_in_pieces(at, a, b);
    law_errors_handed_out(keys, first.fragments, id);
    law_errors_handed_out(keys, second.fragments, id);
    law_errors_handed_out(keys, whole.fragments, id);
    lemma_concat(first.fragments, second.fragments, RecordType::StdErr, id);
    assert(stream(both, RecordType::StdErr, id) == stream(
        whole.fragments,
        RecordType::StdErr,
        id,
    ));
    lemma_ends_concat(keys, first.fragments, second.fragments);
    lemma_ends_whole(keys, both);
    lemma_ends_whole(keys, whole.fragments);
}

proof fn lemma_ends_concat(keys: Set<usize>, a: Seq<Fragment>, b: Seq<Fragment>)
    ensures
        ends_of(keys, a + b) == ends_of(keys, a) + ends_of(keys, b),
    decreases a.len(),
{
    if a.len() == 0 {
        assert(a + b =~= b);
        assert(ends_of(keys, a) + ends_of(keys, b) =~= ends_of(keys, b));
    } else {
        assert((a + b).drop_first() =~= a.drop_first() + b);
        lemma_ends_concat(keys, a.drop_first(), b);
        assert(ends_of(keys, a + b) =~= ends_of(keys, a) + ends_of(keys, b));
    }
}

proof fn lemma_ends_whole(keys: Set<usize>, fs: Seq<Fragment>)
    ensures
        ends_of(keys, fs) == ends_of(keys, wholes(fs)),
    decreases fs.len(),
{
    if fs.len() > 0 {
        let f = fs[0];
        let more = wholes(fs.drop_first());
        lemma_ends_whole(keys, fs.drop_first());
        if is_whole(f.header.rtype) {
            assert((seq![f] + more).drop_first() =~= more);
        } else {
            assert(end_in(keys, f) + ends_of(keys, fs.drop_first()) =~= ends_of(
                keys,
                fs.drop_first(),
            ));
        }
    }
}

proof fn lemma_deliver_concat(m: Map<usize, RequestView>, a: Seq<Fragment>, b: Seq<Fragment>)
    ensures
        deliver_all(m, a + b) == deliver_all(deliver_all(m, a), b),
    decreases a.len(),
{
    if a.len() == 0 {
        assert(a + b =~= b);
    } else {
        assert((a + b).drop_first() =~= a.drop_first() + b);
        lemma_deliver_concat(deliver(m, a[0]), a.drop_first(), b);
    }
}

/// Management records, and records for requests that do not run, change nothing, wake
/// nobody and tell nothing.
pub proof fn law_unaddressed_ignored(m: Map<usize, RequestView>, f: Fragment)
    requires
        f.header.request_id == 0 || !m.dom().contains(key_of(f.header.request_id)),
    ensures
        deliver(m, f) == m,
        woken(m, f).len() == 0,
        error_in(m.dom(), f).len() == 0,
        end_in(m.dom(), f).len() == 0,
{
}

/// Standard output that an application writes as a stream arrives whole and in order at the
/// request it is for, and nowhere else.
pub proof fn law_stdout_arrives(m: Map<usize, RequestView>, id: u16, data: Seq<u8>, other: u16)
    requires
        id > 0,
        m.dom().contains(key_of(id)),
        other > 0,
        m.dom().contains(key_of(other)),
    ensures
        ({
            let s = stream_bytes(RecordType::StdOut, id, data);
            let after = deliver_all(m, read_all(start(), s).fragments);
            &&& after[key_of(id)].chunks.flatten() == m[key_of(id)].chunks.flatten() + data
            &&& after[key_of(id)].ended == m[key_of(id)].ended
            &&& other != id ==> after[key_of(other)].chunks.flatten()
                == m[key_of(other)].chunks.flatten()
            &&& read_all(start(), s).at == start()
            &&& read_all(start(), s).rest.len() == 0
        }),
{
    let none = Seq::<u8>::empty();
    let t = RecordType::StdOut;
    let s = stream_bytes(t, id, data);
    let r = read_all(start(), s);
    let end = read_all(start(), none);
    law_stream_round_trip(t, id, data, none);
    assert(s + none =~= s);
    assert(reads_first(r, t, id, data, end));
    assert(end.fragments =~= Seq::empty());
    law_delivery(m, r.fragments, id);
    law_delivery(m, r.fragments, other);
    assert(data + stream(end.fragments, t, id) =~= data);
    assert(seen(r.fragments, RecordType::EndRequest, id) == seen(
        end.fragments,
        RecordType::EndRequest,
        id,
    ));
    if other != id {
        assert(stream(r.fragments, t, other) == stream(end.fragments, t, other));
        assert(m[key_of(other)].chunks.flatten() + none =~= m[key_of(other)].chunks.flatten());
    }
}

/// A whole answer arrives at the request it is for: all of its standard output in order, and
/// its end, however long it is.
pub proof fn law_answer_arrives(
    m: Map<usize, RequestView>,
    id: u16,
    data: Seq<u8>,
    app_status: u32,
    protocol_status: ProtoStatus,
)
    requires
        id > 0,
        m.dom().contains(key_of(id)),
    ensures
        ({
            let end = FCGIType::EndRequest {
                request_id: id,
                app_status,
                proto_status: protocol_status.code(),
            };
            let s = stream_bytes(RecordType::StdOut, id, data) + item_bytes(end);
            let after = deliver_all(m, read_all(start(), s).fragments)[key_of(id)];
            &&& after.chunks.flatten() == m[key_of(id)].chunks.flatten() + data
            &&& after.ended
        }),
{
    let t = RecordType::StdOut;
    let none = Seq::<u8>::empty();
    let end = FCGIType::EndRequest {
        request_id: id,
        app_status,
        proto_status: protocol_status.code(),
    };
    let s = stream_bytes(t, id, data) + item_bytes(end);
    law_stream_round_trip(t, id, data, item_bytes(end));
    law_end_request_round_trip(id, app_status, protocol_status, none);
    assert(item_bytes(end) + none =~= item_bytes(end));
    let a = read_all(start(), s).fragments;
    let b = read_all(start(), item_bytes(end)).fragments;
    assert(read_all(start(), none).fragments =~= Seq::empty());
    assert(b.drop_first() =~= Seq::empty());
    assert(seen(b, RecordType::EndRequest, id));
    assert(stream(b, t, id) =~= stream(b.drop_first(), t, id));
    assert(stream(b, t, id) =~= none);
    assert(data + stream(b, t, id) =~= data);
    assert(seen(a, RecordType::EndRequest, id) == seen(b, RecordType::EndRequest, id));
    law_delivery(m, a, id);
}

/// Whoever waits for a request is woken when something happens to it: when output arrives,
/// when it ends, and when the connection is gone.
pub proof fn law_no_lost_wakeup(
    m: Map<usize, RequestView>,
    fs: Seq<Fragment>,
    id: u16,
    waker: Waker,
    wakers: Seq<Waker>,
)
    requires
        id > 0,
        m.dom().contains(key_of(id)),
        m[key_of(id)].waker == Some(waker),
    ensures
        ({
            let before = m[key_of(id)];
            let after = deliver_all(m, fs)[key_of(id)];
            after.chunks != before.chunks || after.ended != before.ended ==> woken_all(
                m,
                fs,
            ).contains(waker)
        }),
        all_wakers(m, wakers) ==> wakers.contains(waker),
{
    lemma_woken(m, fs, id, waker);
    if all_wakers(m, wakers) {
        let keys = choose|keys: Seq<usize>| #[trigger]
            sorted_keys(m, keys) && wakers == woken_keys(m, keys);
        assert(keys.contains(key_of(id)));
        let i = choose|i: int| 0 <= i < keys.len() && keys[i] == key_of(id);
        lemma_woken_keys(m, keys, i, waker);
    }
}

proof fn lemma_woken(m: Map<usize, RequestView>, fs: Seq<Fragment>, id: u16, waker: Waker)
    requires
        id > 0,
        m.dom().contains(key_of(id)),
        m[key_of(id)].waker == Some(waker),
    ensures
        deliver_all(m, fs)[key_of(id)] == m[key_of(id)] || woken_all(m, fs).contains(waker),
    decreases fs.len(),
{
    if fs.len() > 0 {
        let k = key_of(id);
        let f = fs[0];
        let m1 = deliver(m, f);
        let first = woken(m, f);
        let more = woken_all(m1, fs.drop_first());
        if m1[k].waker == Some(waker) {
            assert(m1[k] == m[k]);
            lemma_woken(m1, fs.drop_first(), id, waker);
            if more.contains(waker) {
                let i = choose|i: int| 0 <= i < more.len() && more[i] == waker;
                assert((first + more)[first.len() + i] == waker);
            }
        } else {
            assert(first =~= seq![waker]);
            assert((first + more)[0] == waker);
        }
    }
}

proof fn lemma_woken_keys(m: Map<usize, RequestView>, keys: Seq<usize>, i: int, waker: Waker)
    requires
        0 <= i < keys.len(),
        m[keys[i]].waker == Some(waker),
    ensures
        woken_keys(m, keys).contains(waker),
    decreases keys.len(),
{
    let init = woken_keys(m, keys.drop_last());
    let last = woken_by(m[keys.last()], give_up(m[keys.last()]));
    if i == keys.len() - 1 {
        assert(last =~= seq![waker]);
        assert((init + last)[init.len() as int] == waker);
    } else {
        lemma_woken_keys(m, keys.drop_last(), i, waker);
        let j = choose|j: int| 0 <= j < init.len() && init[j] == waker;
        assert((init + last)[j] == waker);
    }
}

/// The headers of a request turn to parameters one by one: each header that is not skipped is
/// forwarded, and nothing else is.
pub proof fn law_headers_forwarded(
    m: Map<Seq<u8>, Seq<Seq<u8>>>,
    names: Seq<Seq<u8>>,
    mul: MultiHeaderStrategy,
)
    ensures
        forall|i: int|
            0 <= i < names.len() && !skipped(#[trigger] names[i]) ==> header_vars(
                m,
                names,
                mul,
            ).contains(header_var(m, names[i], mul)),
        forall|v: (Seq<u8>, Seq<u8>)| #[trigger]
            header_vars(m, names, mul).contains(v) ==> exists|i: int|
                0 <= i < names.len() && !skipped(#[trigger] names[i]) && v == header_var(
                    m,
                    names[i],
                    mul,
                ),
        header_vars(m, names, mul).len() == names.filter(|n: Seq<u8>| !skipped(n)).len(),
    decreases names.len(),
{
    reveal(Seq::filter);
    if names.len() > 0 {
        let init = names.drop_last();
        let so_far = header_vars(m, init, mul);
        let all = header_vars(m, names, mul);
        law_headers_forwarded(m, init, mul);
        assert forall|i: int| 0 <= i < names.len() && !skipped(#[trigger] names[i]) implies
            all.contains(header_var(m, names[i], mul)) by {
            if i < init.len() {
                assert(init[i] == names[i]);
                let j = choose|j: int|
                    0 <= j < so_far.len() && so_far[j] == header_var(m, init[i], mul);
                assert(all[j] == so_far[j]);
            } else {
                assert(all[all.len() - 1] == header_var(m, names[i], mul));
            }
        }
        assert forall|v: (Seq<u8>, Seq<u8>)| #[trigger] all.contains(v) implies exists|i: int|
            0 <= i < names.len() && !skipped(#[trigger] names[i]) && v == header_var(
                m,
                names[i],
                mul,
            ) by {
            let j = choose|j: int| 0 <= j < all.len() && all[j] == v;
            if j < so_far.len() {
                assert(so_far[j] == v);
                assert(so_far.contains(v));
                let i = choose|i: int|
                    0 <= i < init.len() && !skipped(#[trigger] init[i]) && v == header_var(
                        m,
                        init[i],
                        mul,
                    );
                assert(names[i] == init[i]);
            } else {
                assert(names[names.len() - 1] == names.last());
            }
        }
    }
}

/// A body arrives at the application whole and in order, however it was cut into chunks, and
/// its end is marked.
pub proof fn law_body_arrives(id: u16, chunks: Seq<Seq<u8>>)
    ensures
        ({
            let r = read_all(start(), body_stream(id, chunks));
            &&& stream(r.fragments, RecordType::StdIn, id) == chunks.flatten()
            &&& seen(r.fragments, RecordType::StdIn, id)
            &&& r.at == start()
            &&& r.rest.len() == 0
        }),
{
    lemma_body_reads(id, chunks);
    let none = Seq::<u8>::empty();
    let end = read_all(start(), none);
    assert(body_stream(id, chunks) + none =~= body_stream(id, chunks));
    assert(end.fragments =~= Seq::empty());
    assert(chunks.flatten() + stream(end.fragments, RecordType::StdIn, id) =~= chunks.flatten());
}

proof fn lemma_body_reads(id: u16, chunks: Seq<Seq<u8>>)
    ensures
        reads_first(
            read_all(start(), body_stream(id, chunks) + Seq::<u8>::empty()),
            RecordType::StdIn,
            id,
            chunks.flatten(),
            read_all(start(), Seq::<u8>::empty()),
        ),
    decreases chunks.len(),
{
    let none = Seq::<u8>::empty();
    let t = RecordType::StdIn;
    if chunks.len() == 0 {
        law_chunk_round_trip(t, id, none, none);
        assert(chunks.flatten() =~= none);
    } else {
        let first = chunks[0];
        let rest = body_stream(id, chunks.drop_first()) + none;
        lemma_body_reads(id, chunks.drop_first());
        assert(body_stream(id, chunks) + none == body_chunk(id, first) + rest) by {
            lemma_assoc(
                body_chunk(id, first),
                body_stream(id, chunks.drop_first()),
                none,
            );
        }
        if first.len() == 0 {
            assert(none + rest =~= rest);
            assert(first + chunks.drop_first().flatten() =~= chunks.drop_first().flatten());
        } else {
            law_chunk_round_trip(t, id, first, rest);
            lemma_reads_join(
                read_all(start(), chunk_bytes(t, id, first) + rest),
                t,
                id,
                first,
                read_all(start(), rest),
                chunks.drop_first().flatten(),
                read_all(start(), none),
            );
        }
    }
}

/// A request that was sent arrives at the application: it is begun, its parameters are read
/// back in the order in which they were sent, and nothing is left half read.
pub proof fn law_request_arrives(
    con: Connection,
    dyn_headers: Seq<(Seq<u8>, Seq<u8>)>,
    req: RequestHead,
    names: Seq<Seq<u8>>,
    rid: u16,
    out: Seq<u8>,
    r: Sent,
)
    requires
        request_fits(dyn_headers, req, con.header_mul),
        names_of(req.fields(), names),
        sent(con, dyn_headers, req, names, rid, out, Ok(r)),
    ensures
        ({
            let all = read_all(start(), out);
            &&& seen(all.fragments, RecordType::BeginRequest, rid)
            &&& read_pairs(stream(all.fragments, RecordType::Params, rid)) == Some(
                params(dyn_headers, req, names, con.header_mul),
            )
            &&& seen(all.fragments, RecordType::StdIn, rid) == (req.content_length() is None)
            &&& !seen(all.fragments, RecordType::AbortRequest, rid)
            &&& all.at == start()
            &&& all.rest.len() == 0
        }),
{
    let none = Seq::<u8>::empty();
    let t = RecordType::Params;
    let item = FCGIType::BeginRequest {
        request_id: rid,
        role: FastCGIRole::Responder,
        flags: BeginRequestBody::KEEP_CONN,
    };
    let begin = item_bytes(item);
    let all = params(dyn_headers, req, names, con.header_mul);
    let pairs = encode_pairs(all);
    lemma_accepted(req.fields(), names, con.header_mul, con.header_nl, names.len() as int);
    assert(names.take(names.len() as int) =~= names);
    let body = match req.content_length() {
        Some(_) => none,
        None => chunk_bytes(RecordType::StdIn, rid, none),
    };
    let whole = stream_bytes(t, rid, pairs);
    let tail = body + none;
    assert(body + none =~= body);
    lemma_assoc(begin, whole, body);
    assert(begin + whole + none =~= begin + whole);
    assert(out == begin + (whole + body));
    law_begin_request_round_trip(
        rid,
        FastCGIRole::Responder,
        BeginRequestBody::KEEP_CONN,
        whole + body,
    );
    law_stream_round_trip(t, rid, pairs, body);
    let end = read_all(start(), none);
    assert(end.fragments =~= Seq::empty());
    if req.content_length() is None {
        law_chunk_round_trip(RecordType::StdIn, rid, none, none);
    }
    let a = read_all(start(), out).fragments;
    let b = read_all(start(), whole + body).fragments;
    let c = read_all(start(), body).fragments;
    assert(stream(a, t, rid) == stream(b, t, rid));
    assert(stream(c, t, rid) =~= stream(end.fragments, t, rid));
    assert(pairs + stream(c, t, rid) =~= pairs);
    assert(seen(a, RecordType::StdIn, rid) == seen(b, RecordType::StdIn, rid));
    assert(seen(b, RecordType::StdIn, rid) == seen(c, RecordType::StdIn, rid));
    assert(seen(a, RecordType::AbortRequest, rid) == seen(b, RecordType::AbortRequest, rid));
    assert(seen(b, RecordType::AbortRequest, rid) == seen(c, RecordType::AbortRequest, rid));
    lemma_params_fit(dyn_headers, req, names, con.header_mul);
    law_pairs_round_trip(all);
}

proof fn lemma_params_fit(
    dyn_headers: Seq<(Seq<u8>, Seq<u8>)>,
    req: RequestHead,
    names: Seq<Seq<u8>>,
    mul: MultiHeaderStrategy,
)
    requires
        request_fits(dyn_headers, req, mul),
        names_of(req.fields(), names),
    ensures
        all_sendable(params(dyn_headers, req, names, mul)),
{
    assert forall|i: int| 0 <= i < names.len() implies req.fields().dom().contains(
        #[trigger] names[i],
    ) by {
        assert(names.contains(names[i]));
    }
    lemma_vars_fit(req.fields(), names, mul);
}

proof fn lemma_vars_fit(
    m: Map<Seq<u8>, Seq<Seq<u8>>>,
    names: Seq<Seq<u8>>,
    mul: MultiHeaderStrategy,
)
    requires
        forall|i: int| 0 <= i < names.len() ==> m.dom().contains(#[trigger] names[i]),
        forall|n: Seq<u8>| #[trigger]
            m.dom().contains(n) && !skipped(n) ==> sendable(header_var(m, n, mul)),
    ensures
        all_sendable(header_vars(m, names, mul)),
    decreases names.len(),
{
    if names.len() > 0 {
        lemma_vars_fit(m, names.drop_last(), mul);
        assert(m.dom().contains(names[names.len() - 1]));
    }
}

/// A request that is refused in the middle is begun and aborted at the application, and it
/// is neither completed nor left half read: its parameters do not end, and no body follows.
pub proof fn law_refused_request_aborted(
    con: Connection,
    dyn_headers: Seq<(Seq<u8>, Seq<u8>)>,
    req: RequestHead,
    names: Seq<Seq<u8>>,
    rid: u16,
    out: Seq<u8>,
    e: SendError,
)
    requires
        sent(con, dyn_headers, req, names, rid, out, Err(e)),
    ensures
        ({
            let all = read_all(start(), out);
            let n = accepted(req.fields(), names, con.header_mul, con.header_nl);
            let pairs = encode_pairs(
                params(dyn_headers, req, names.take(n as int), con.header_mul),
            );
            &&& e == SendError::MultilineHeader
            &&& seen(all.fragments, RecordType::BeginRequest, rid)
            &&& seen(all.fragments, RecordType::AbortRequest, rid)
            &&& stream(all.fragments, RecordType::Params, rid) == written_part(pairs)
            &&& !seen(all.fragments, RecordType::StdIn, rid)
            &&& all.at == start()
            &&& all.rest.len() == 0
        }),
{
    let none = Seq::<u8>::empty();
    let t = RecordType::Params;
    let item = FCGIType::BeginRequest {
        request_id: rid,
        role: FastCGIRole::Responder,
        flags: BeginRequestBody::KEEP_CONN,
    };
    let begin = item_bytes(item);
    let n = accepted(req.fields(), names, con.header_mul, con.header_nl);
    let pairs = encode_pairs(params(dyn_headers, req, names.take(n as int), con.header_mul));
    let part = full_records(t, rid, pairs);
    let abort = item_bytes(FCGIType::AbortRequest { request_id: rid });
    lemma_assoc(begin, part, abort);
    law_begin_request_round_trip(
        rid,
        FastCGIRole::Responder,
        BeginRequestBody::KEEP_CONN,
        part + abort,
    );
    law_full_records_round_trip(t, rid, pairs, abort);
    law_abort_round_trip(rid, none);
    assert(abort + none =~= abort);
    let end = read_all(start(), none);
    assert(end.fragments =~= Seq::empty());
    let a = read_all(start(), out).fragments;
    let b = read_all(start(), part + abort).fragments;
    let c = read_all(start(), abort).fragments;
    assert(stream(a, t, rid) == stream(b, t, rid));
    assert(stream(c, t, rid) == stream(end.fragments, t, rid));
    assert(written_part(pairs) + stream(c, t, rid) =~= written_part(pairs));
    if written_part(pairs).len() == 0 {
        assert(written_part(pairs) =~= none);
    }
    assert(seen(a, RecordType::AbortRequest, rid) == seen(b, RecordType::AbortRequest, rid));
    assert(seen(b, RecordType::AbortRequest, rid) == seen(c, RecordType::AbortRequest, rid));
    assert(seen(a, RecordType::StdIn, rid) == seen(b, RecordType::StdIn, rid));
    assert(seen(b, RecordType::StdIn, rid) == seen(c, RecordType::StdIn, rid));
    assert(seen(c, RecordType::StdIn, rid) == seen(end.fragments, RecordType::StdIn, rid));
}

/// The body of a response is what follows its head on standard output, in order: first the
/// start of the body that came with the head, then what waited already, and then whatever is
/// read from then on.
pub proof fn law_body_follows_head(
    m: Map<usize, RequestView>,
    id: u16,
    start: Seq<u8>,
    fs: Seq<Fragment>,
)
    requires
        id > 0,
        m.dom().contains(key_of(id)),
    ensures
        ({
            let k = key_of(id);
            let handed = m.insert(k, RequestView { chunks: seq![start] + m[k].chunks, ..m[k] });
            deliver_all(handed, fs)[k].chunks.flatten() == start + m[k].chunks.flatten() + stream(
                fs,
                RecordType::StdOut,
                id,
            )
        }),
{
    let k = key_of(id);
    let r = RequestView { chunks: seq![start] + m[k].chunks, ..m[k] };
    let handed = m.insert(k, r);
    law_delivery(handed, fs, id);
    assert(r.chunks.drop_first() =~= m[k].chunks);
    assert(r.chunks.flatten() =~= start + m[k].chunks.flatten());
}

/// A chunk that is taken out of the body is the front of what waits, and the rest stays in
/// order: nothing is lost, doubled or moved. Other requests do not notice.
pub proof fn law_frame_takes_front(
    m: Map<usize, RequestView>,
    k: usize,
    was_returned: bool,
    waker: Waker,
    other: usize,
)
    requires
        m.dom().contains(k),
        m[k].chunks.len() > 0,
        other != k,
    ensures
        ({
            let after = after_frame(m, k, was_returned, waker);
            &&& next_frame(m, k) == FrameView::Data(m[k].chunks[0])
            &&& released(m, k, was_returned) ==> m[k].chunks.flatten() == m[k].chunks[0]
                && !after.dom().contains(k)
            &&& !released(m, k, was_returned) ==> after.dom().contains(k)
                && m[k].chunks.flatten() == m[k].chunks[0] + after[k].chunks.flatten()
            &&& after.dom().contains(other) == m.dom().contains(other)
            &&& m.dom().contains(other) ==> after[other] == m[other]
        }),
{
    let rest = m[k].chunks.drop_first();
    if rest.len() == 0 {
        assert(rest.flatten() =~= Seq::empty());
        assert(m[k].chunks[0] + rest.flatten() =~= m[k].chunks[0]);
    }
}

/// A body never waits on a connection that is gone: it gives what has arrived and then ends.
pub proof fn law_gone_never_pends(
    m: Map<usize, RequestView>,
    i: Intake,
    fill: Fill,
    k: usize,
)
    requires
        status_after(i, fill) is Closed || status_after(i, fill) is Failed,
    ensures
        next_frame(running_after(m, i, fill), k) !is Pending,
{
}

} // verus!
