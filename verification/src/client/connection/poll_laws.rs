//! What one record, one poll and one frame do, in all cases.
use slab::Slab;
use std::task::Waker;
use vstd::prelude::*;

use crate::buffer::contents;
use crate::client::connection::body::{
    after_frame, next_frame, released, Frame, FrameView, ServerState,
};
use crate::client::connection::inner::{
    all_wakers, deliver, deliver_all, end_in, ends_of, error_in, errors_of, events_after, give_up,
    intake_after, key_of, pollable, receive, running_after, sorted_keys, status_after, taken, woken,
    woken_all, woken_keys, Events, Fill, Intake,
};
use crate::client::connection::requests::{requests, running, FCGIRequest, RequestView};
use crate::fastcgi::reader::{all_readable, read_all, Fragment};
use crate::fastcgi::record::{body_of, BodyView};
use crate::fastcgi::{EndRequestBody, RecordType};

verus! {

// ---------------------------------------------------------------- records

/// Ids count from one, keys from zero.
pub proof fn law_key(id: u16)
    requires
        id > 0,
    ensures
        key_of(id) + 1 == id,
{
}

/// What a record does to the request it is for. Standard output with bytes is put behind what
/// waits, and whoever waits is let go; the end of the request is noted, and whoever waits is
/// let go; everything else changes nothing.
pub proof fn law_received(r: RequestView, f: Fragment)
    ensures
        ({
            let after = receive(r, f);
            let output = f.header.rtype is StdOut && f.payload.len() > 0;
            let end = f.header.rtype is EndRequest;
            &&& after.chunks == if output {
                r.chunks.push(f.payload)
            } else {
                r.chunks
            }
            &&& after.ended == (r.ended || end)
            &&& after.waker == if output || end {
                None::<Waker>
            } else {
                r.waker
            }
            &&& after.permit == r.permit
        }),
{
}

/// A record reaches the request with its id, if that runs, and no other one.
pub proof fn law_delivered(m: Map<usize, RequestView>, f: Fragment, k: usize)
    ensures
        deliver(m, f).dom() == m.dom(),
        m.dom().contains(k) ==> deliver(m, f)[k] == if f.header.request_id == k + 1 {
            receive(m[k], f)
        } else {
            m[k]
        },
{
    assert(deliver(m, f).dom() =~= m.dom());
}

/// Whoever waits for a request is woken by its standard output, if that has bytes, and by its
/// end. Nobody else is.
pub proof fn law_woken(m: Map<usize, RequestView>, f: Fragment)
    ensures
        ({
            let id = f.header.request_id;
            let k = (id - 1) as usize;
            let news = f.header.rtype is StdOut && f.payload.len() > 0
                || f.header.rtype is EndRequest;
            let waits = id > 0 && m.dom().contains(k) && m[k].waker is Some;
            &&& news && waits ==> woken(m, f) == seq![m[k].waker->0]
            &&& !(news && waits) ==> woken(m, f).len() == 0
        }),
{
}

/// What a record says on standard error is handed out with the id of its request, if that
/// runs.
pub proof fn law_error_in(keys: Set<usize>, f: Fragment)
    ensures
        ({
            let id = f.header.request_id;
            let told = f.header.rtype is StdErr && id > 0 && keys.contains((id - 1) as usize);
            &&& told ==> error_in(keys, f) == seq![(id, f.payload)]
            &&& !told ==> error_in(keys, f).len() == 0
        }),
{
}

/// The end of a request is handed out with its id and status, if it runs.
pub proof fn law_end_in(keys: Set<usize>, f: Fragment, e: EndRequestBody)
    ensures
        ({
            let id = f.header.request_id;
            let runs = id > 0 && keys.contains((id - 1) as usize);
            let told = f.header.rtype is EndRequest && runs;
            &&& told && body_of(f.payload, RecordType::EndRequest) == Some(BodyView::EndRequest(e))
                ==> end_in(keys, f) == seq![(id, e)]
            &&& !told ==> end_in(keys, f).len() == 0
        }),
{
}

/// Records have their effects one after the other.
pub proof fn law_one_after_the_other(
    m: Map<usize, RequestView>,
    f: Fragment,
    fs: Seq<Fragment>,
)
    ensures
        ({
            let none = Seq::<Fragment>::empty();
            let all = seq![f] + fs;
            let keys = m.dom();
            &&& deliver_all(m, none) == m
            &&& woken_all(m, none).len() == 0
            &&& errors_of(keys, none).len() == 0
            &&& ends_of(keys, none).len() == 0
            &&& deliver_all(m, all) == deliver_all(deliver(m, f), fs)
            &&& woken_all(m, all) == woken(m, f) + woken_all(deliver(m, f), fs)
            &&& errors_of(keys, all) == error_in(keys, f) + errors_of(keys, fs)
            &&& ends_of(keys, all) == end_in(keys, f) + ends_of(keys, fs)
        }),
{
    assert((seq![f] + fs).drop_first() =~= fs);
}

// ---------------------------------------------------------------- polls

/// Without a connection a request has ended and nobody waits for it. What it holds is kept.
pub proof fn law_given_up(r: RequestView)
    ensures
        give_up(r).ended,
        give_up(r).waker is None,
        give_up(r).chunks == r.chunks,
        give_up(r).permit == r.permit,
{
}

/// Where there is nothing to read yet, nothing happens.
pub proof fn law_poll_without_news(m: Map<usize, RequestView>, i: Intake, events: Events)
    ensures
        status_after(i, Fill::Pending) is Pending,
        running_after(m, i, Fill::Pending) == m,
        intake_after(i, Fill::Pending) == i,
        events_after(m, i, Fill::Pending, events) ==> events.wakers@.len() == 0
            && events.errors@.len() == 0 && events.ended@.len() == 0,
{
    if events_after(m, i, Fill::Pending, events) {
        assert(events.said().len() == events.errors@.len());
    }
}

/// When the connection is gone, closed or broken, all requests have ended, all who wait are
/// woken and nobody else, and nothing is said or told.
pub proof fn law_poll_of_gone(
    m: Map<usize, RequestView>,
    i: Intake,
    fill: Fill,
    events: Events,
    k: usize,
)
    requires
        fill is Failed || (fill matches Fill::Ready(b) && b@.len() == 0),
    ensures
        fill is Failed ==> status_after(i, fill) is Failed,
        fill is Ready ==> status_after(i, fill) is Closed,
        running_after(m, i, fill).dom() == m.dom(),
        m.dom().contains(k) ==> running_after(m, i, fill)[k] == give_up(m[k]),
        intake_after(i, fill) == i,
        events_after(m, i, fill, events) ==> all_wakers(m, events.wakers@)
            && events.errors@.len() == 0 && events.ended@.len() == 0,
{
    assert(running_after(m, i, fill).dom() =~= m.dom());
    if events_after(m, i, fill, events) {
        assert(events.said().len() == events.errors@.len());
    }
}

/// Data is read behind what was kept, and each record has its effects. As many bytes are taken
/// as were read, or all of them, to be kept, if none can be read yet.
pub proof fn law_poll_of_data(m: Map<usize, RequestView>, i: Intake, fill: Fill, events: Events)
    ensures
        fill matches Fill::Ready(b) ==> (b@.len() > 0 ==> {
            let r = read_all(i.at, i.early + b@);
            &&& status_after(i, fill) is Taken
            &&& status_after(i, fill)->Taken_0 == taken(i, fill) as usize
            &&& taken(i, fill) == if r.rest.len() < b@.len() {
                b@.len() - r.rest.len()
            } else {
                b@.len() as int
            }
            &&& running_after(m, i, fill) == deliver_all(m, r.fragments)
            &&& intake_after(i, fill).at == r.at
            &&& r.rest.len() < b@.len() ==> intake_after(i, fill).early.len() == 0
            &&& r.rest.len() >= b@.len() ==> intake_after(i, fill).early == r.rest
            &&& events_after(m, i, fill, events) ==> {
                &&& events.wakers@ == woken_all(m, r.fragments)
                &&& events.errors@.len() == errors_of(m.dom(), r.fragments).len()
                &&& events.said() == errors_of(m.dom(), r.fragments)
                &&& events.ended@ == ends_of(m.dom(), r.fragments)
            }
        }),
        fill matches Fill::Ready(b) ==> (pollable(i, fill) <==> i.early.len() + b@.len()
            <= isize::MAX && all_readable(i.at, i.early + b@)),
        fill !is Ready ==> pollable(i, fill) && taken(i, fill) == 0,
{
    if let Fill::Ready(b) = fill {
        if b@.len() > 0 && events_after(m, i, fill, events) {
            assert(events.said().len() == events.errors@.len());
        }
    }
}

/// What is said on standard error is said with the id and the text of each entry.
pub proof fn law_said(events: Events, j: int)
    ensures
        events.said().len() == events.errors@.len(),
        0 <= j < events.errors@.len() ==> events.said()[j].0 == events.errors@[j].0
            && events.said()[j].1 == contents(events.errors@[j].1),
{
}

/// All who wait are woken in the order of their requests, each once.
pub proof fn law_all_woken(
    m: Map<usize, RequestView>,
    keys: Seq<usize>,
    k: usize,
    wakers: Seq<Waker>,
)
    ensures
        woken_keys(m, Seq::empty()).len() == 0,
        m[k].waker matches Some(w) ==> woken_keys(m, keys.push(k)) == woken_keys(m, keys).push(w),
        m[k].waker is None ==> woken_keys(m, keys.push(k)) == woken_keys(m, keys),
        sorted_keys(m, keys) <==> (forall|i: int, j: int|
            0 <= i < j < keys.len() ==> keys[i] < keys[j]) && (forall|x: usize|
            keys.contains(x) <==> m.dom().contains(x)),
        all_wakers(m, wakers) ==> exists|ks: Seq<usize>| #[trigger]
            sorted_keys(m, ks) && wakers == woken_keys(m, ks),
{
    assert(keys.push(k).drop_last() =~= keys);
    assert(keys.push(k).last() == k);
    match m[k].waker {
        Some(w) => {
            assert(woken_keys(m, keys.push(k)) =~= woken_keys(m, keys).push(w));
        },
        None => {
            assert(woken_keys(m, keys.push(k)) =~= woken_keys(m, keys));
        },
    }
}

/// A request is seen as what it holds.
pub proof fn law_request_view(r: FCGIRequest, j: int)
    ensures
        r@.chunks.len() == r.buf.bufs@.len(),
        0 <= j < r.buf.bufs@.len() ==> r@.chunks[j] == contents(r.buf.bufs@[j]),
        r@.waker == r.waker,
        r@.ended == r.ended,
        r@.permit == r._permit,
{
}

// ---------------------------------------------------------------- frames

/// The frame of a body: the oldest chunk that waits; the end, if nothing waits and the request
/// has ended or is not known; and else nothing yet.
pub proof fn law_next_frame(m: Map<usize, RequestView>, k: usize)
    ensures
        ({
            let there = m.dom().contains(k) && m[k].chunks.len() > 0;
            let more = m.dom().contains(k) && !m[k].ended;
            &&& there ==> next_frame(m, k) == FrameView::Data(m[k].chunks[0])
            &&& !there && more ==> next_frame(m, k) is Pending
            &&& !there && !more ==> next_frame(m, k) is End
        }),
{
}

/// What a frame leaves of its request. A chunk that was given is gone; who waits is kept; and a
/// body that was handed over lets go of its request with the last thing there is to give.
pub proof fn law_after_frame(
    m: Map<usize, RequestView>,
    k: usize,
    was_returned: bool,
    waker: Waker,
    other: usize,
)
    ensures
        ({
            let after = after_frame(m, k, was_returned, waker);
            let r = m[k];
            let last = was_returned && r.ended && r.chunks.len() <= 1;
            &&& !m.dom().contains(k) ==> after == m && released(m, k, was_returned)
            &&& m.dom().contains(k) ==> (released(m, k, was_returned) <==> last)
            &&& m.dom().contains(k) && last ==> !after.dom().contains(k)
            &&& m.dom().contains(k) && !last ==> {
                let a = after[k];
                &&& after.dom().contains(k)
                &&& r.chunks.len() > 0 ==> a.chunks == r.chunks.skip(1) && a.waker == r.waker
                &&& r.chunks.len() == 0 ==> a.chunks == r.chunks
                &&& r.chunks.len() == 0 && !r.ended ==> a.waker == Some(waker)
                &&& r.chunks.len() == 0 && r.ended ==> a.waker == r.waker
                &&& a.ended == r.ended
                &&& a.permit == r.permit
            }
            &&& other != k ==> after.dom().contains(other) == m.dom().contains(other)
            &&& other != k && m.dom().contains(other) ==> after[other] == m[other]
        }),
{
    let after = after_frame(m, k, was_returned, waker);
    if m.dom().contains(k) && m[k].chunks.len() > 0 {
        assert(m[k].chunks.drop_first() =~= m[k].chunks.skip(1));
    }
}

/// The requests that run, and what a frame holds, are seen as what they are.
pub proof fn law_running_seen(s: Slab<FCGIRequest>, k: usize, frame: Frame)
    ensures
        running(s).dom() == requests(s).dom(),
        requests(s).dom().contains(k) ==> running(s)[k] == requests(s)[k]@,
        frame matches Frame::Data(b) ==> frame@ == FrameView::Data(contents(b)),
        frame is End ==> frame@ is End,
        frame is Pending ==> frame@ is Pending,
{
    assert(running(s).dom() =~= requests(s).dom());
}

/// The id of a body does not depend on whether it is done.
pub proof fn law_body_id(id: u16)
    ensures
        ServerState::Running(id).request_id() == id,
        ServerState::Done(id).request_id() == id,
{
}

} // verus!
