//! What the requests of a connection share.
use bytes::{Bytes, BytesMut};
use slab::Slab;
use std::task::Waker;
use tokio::sync::OwnedSemaphorePermit;
use vstd::prelude::*;

use crate::buffer::{chunk, contents, put_slice, written};
use crate::bufvec::BufList;
use crate::client::connection::laws::law_delivery;
use crate::client::connection::requests::{
    requests, running, slab_get_mut, slab_insert, slab_keys, slab_len, slab_wf, slab_with_capacity,
    slots, FCGIRequest, RequestView,
};
use crate::codec::{item_bytes, FCGIType, FCGIWriter};
use crate::fastcgi::reader::{
    all_readable, lemma_step, read_all, read_step, seen, start, step_readable, stream, waiting,
    Fragment, Place, Reading,
};
use crate::fastcgi::record::{body_of, BodyView};
use crate::fastcgi::{
    BeginRequestBody, Body, EndRequestBody, FastCGIRole, Record, RecordReader, RecordType,
};

verus! {

// ---------------------------------------------------------------- delivery

/// A request after `f` was read for it.
///
/// Standard output is put behind what waits to be read, the end of the request is noted, and
/// whoever waits is woken in both cases. Nothing else changes it.
pub open spec fn receive(r: RequestView, f: Fragment) -> RequestView {
    match f.header.rtype {
        RecordType::EndRequest => RequestView { ended: true, waker: None, ..r },
        RecordType::StdOut => if f.payload.len() > 0 {
            RequestView { chunks: r.chunks.push(f.payload), waker: None, ..r }
        } else {
            r
        },
        _ => r,
    }
}

/// The key of a request id. Ids start with one; management records have the id zero.
pub open spec fn key_of(id: u16) -> usize {
    (id - 1) as usize
}

/// Whether `f` is for one of the requests under `keys`.
pub open spec fn addressed(keys: Set<usize>, f: Fragment) -> bool {
    &&& f.header.request_id > 0
    &&& keys.contains(key_of(f.header.request_id))
}

/// The requests after `f` was read.
pub open spec fn deliver(m: Map<usize, RequestView>, f: Fragment) -> Map<usize, RequestView> {
    if addressed(m.dom(), f) {
        let k = key_of(f.header.request_id);
        m.insert(k, receive(m[k], f))
    } else {
        m
    }
}

/// The requests after all of `fs` was read.
pub open spec fn deliver_all(m: Map<usize, RequestView>, fs: Seq<Fragment>) -> Map<
    usize,
    RequestView,
>
    decreases fs.len(),
{
    if fs.len() == 0 {
        m
    } else {
        deliver_all(deliver(m, fs[0]), fs.drop_first())
    }
}

/// Who is woken when a request turns from `before` to `after`.
pub open spec fn woken_by(before: RequestView, after: RequestView) -> Seq<Waker> {
    match before.waker {
        Some(w) => if after.waker is None {
            seq![w]
        } else {
            Seq::empty()
        },
        None => Seq::empty(),
    }
}

/// Who is woken when `f` was read.
pub open spec fn woken(m: Map<usize, RequestView>, f: Fragment) -> Seq<Waker> {
    if addressed(m.dom(), f) {
        let r = m[key_of(f.header.request_id)];
        woken_by(r, receive(r, f))
    } else {
        Seq::empty()
    }
}

/// Who is woken when all of `fs` was read, in order.
pub open spec fn woken_all(m: Map<usize, RequestView>, fs: Seq<Fragment>) -> Seq<Waker>
    decreases fs.len(),
{
    if fs.len() == 0 {
        Seq::empty()
    } else {
        woken(m, fs[0]) + woken_all(deliver(m, fs[0]), fs.drop_first())
    }
}

/// What `f` says on standard error, for one of the requests under `keys`: the id of the
/// request, and the text.
pub open spec fn error_in(keys: Set<usize>, f: Fragment) -> Seq<(u16, Seq<u8>)> {
    if addressed(keys, f) && f.header.rtype == RecordType::StdErr {
        seq![(f.header.request_id, f.payload)]
    } else {
        Seq::empty()
    }
}

/// What all of `fs` say on standard error, in order.
pub open spec fn errors_of(keys: Set<usize>, fs: Seq<Fragment>) -> Seq<(u16, Seq<u8>)>
    decreases fs.len(),
{
    if fs.len() == 0 {
        Seq::empty()
    } else {
        error_in(keys, fs[0]) + errors_of(keys, fs.drop_first())
    }
}

/// The end that `f` tells of one of the requests under `keys`: the id of the request, and how
/// it ended.
pub open spec fn end_in(keys: Set<usize>, f: Fragment) -> Seq<(u16, EndRequestBody)> {
    if addressed(keys, f) && f.header.rtype == RecordType::EndRequest {
        match body_of(f.payload, f.header.rtype) {
            Some(BodyView::EndRequest(status)) => seq![(f.header.request_id, status)],
            _ => Seq::empty(),
        }
    } else {
        Seq::empty()
    }
}

/// The ends that all of `fs` tell, in order.
pub open spec fn ends_of(keys: Set<usize>, fs: Seq<Fragment>) -> Seq<(u16, EndRequestBody)>
    decreases fs.len(),
{
    if fs.len() == 0 {
        Seq::empty()
    } else {
        end_in(keys, fs[0]) + ends_of(keys, fs.drop_first())
    }
}

/// A request after the connection is gone.
pub open spec fn give_up(r: RequestView) -> RequestView {
    RequestView { ended: true, waker: None, ..r }
}

/// Who is woken when the connection is gone, by key.
pub open spec fn woken_keys(m: Map<usize, RequestView>, keys: Seq<usize>) -> Seq<Waker>
    decreases keys.len(),
{
    if keys.len() == 0 {
        Seq::empty()
    } else {
        let r = m[keys.last()];
        woken_keys(m, keys.drop_last()) + woken_by(r, give_up(r))
    }
}

/// The keys of a map, lowest first.
pub open spec fn sorted_keys(m: Map<usize, RequestView>, keys: Seq<usize>) -> bool {
    &&& forall|i: int, j: int| 0 <= i < j < keys.len() ==> keys[i] < keys[j]
    &&& forall|k: usize| keys.contains(k) <==> m.dom().contains(k)
}

/// Whether `wakers` are those of all requests that wait, lowest key first.
pub open spec fn all_wakers(m: Map<usize, RequestView>, wakers: Seq<Waker>) -> bool {
    exists|keys: Seq<usize>| #[trigger] sorted_keys(m, keys) && wakers == woken_keys(m, keys)
}

// ---------------------------------------------------------------- connection

/// What reading from the transport came to.
pub enum Fill<'a> {
    /// These bytes have been read and not been taken yet. None means that the connection
    /// was closed.
    Ready(&'a [u8]),
    /// The transport failed.
    Failed { not_connected: bool },
    /// There is nothing to read yet.
    Pending,
}

/// What became of the connection.
#[derive(Debug, Clone, Copy, PartialEq, Eq, Structural)]
pub enum ConStatus {
    /// There is nothing to read yet.
    Pending,
    /// The connection was closed.
    Closed,
    /// The transport failed.
    Failed,
    /// So many bytes were taken.
    Taken(usize),
}

/// Whether a connection can be used.
#[derive(Debug, Clone, Copy, PartialEq, Eq, Structural)]
pub enum Liveness {
    Alive,
    /// It was closed: a new one is needed.
    Dead,
    /// It is broken.
    Failed,
}

/// What there is to do after a poll of the connection.
pub struct Events {
    /// Whom to wake.
    pub wakers: Vec<Waker>,
    /// What the application wrote to STDERR, each with the id of the request.
    pub errors: Vec<(u16, Bytes)>,
    /// The requests that ended, each with how it ended.
    pub ended: Vec<(u16, EndRequestBody)>,
}

impl Events {
    /// The ids and texts of what was written to STDERR.
    pub open spec fn said(self) -> Seq<(u16, Seq<u8>)> {
        self.errors@.map_values(|e: (u16, Bytes)| (e.0, contents(e.1)))
    }

    /// Nothing to do.
    pub fn new() -> (r: Events)
        ensures
            r.wakers@ == Seq::<Waker>::empty(),
            r.said() == Seq::<(u16, Seq<u8>)>::empty(),
            r.ended@ == Seq::<(u16, EndRequestBody)>::empty(),
    {
        let r = Events { wakers: Vec::new(), errors: Vec::new(), ended: Vec::new() };
        assert(r.said() =~= Seq::<(u16, Seq<u8>)>::empty());
        r
    }
}

/// How far the bytes of a connection have been read.
#[verifier::ext_equal]
pub struct Intake {
    pub at: Place,
    /// Bytes that were taken from the transport and are too few to be read.
    pub early: Seq<u8>,
}

/// What is read when `b` has arrived.
pub open spec fn reading(i: Intake, b: Seq<u8>) -> Reading {
    read_all(i.at, i.early + b)
}

/// Whether `b` can be read: every header is of a known type, every body can be taken apart,
/// and one buffer can hold what there is to read.
pub open spec fn takes(i: Intake, b: Seq<u8>) -> bool {
    &&& i.early.len() + b.len() <= isize::MAX
    &&& all_readable(i.at, i.early + b)
}

/// Whether one poll can be done.
pub open spec fn pollable(i: Intake, fill: Fill) -> bool {
    fill matches Fill::Ready(b) ==> takes(i, b@)
}

/// The number of bytes that one poll takes from the transport. What cannot be read yet stays
/// there, unless it is all that there is: then it is taken and kept.
pub open spec fn taken(i: Intake, fill: Fill) -> int {
    match fill {
        Fill::Ready(b) => {
            let rest = reading(i, b@).rest;
            if rest.len() < b@.len() {
                b@.len() - rest.len()
            } else {
                b@.len() as int
            }
        },
        _ => 0,
    }
}

/// What one poll says of the connection.
pub open spec fn status_after(i: Intake, fill: Fill) -> ConStatus {
    match fill {
        Fill::Pending => ConStatus::Pending,
        Fill::Failed { .. } => ConStatus::Failed,
        Fill::Ready(_) => if taken(i, fill) == 0 {
            ConStatus::Closed
        } else {
            ConStatus::Taken(taken(i, fill) as usize)
        },
    }
}

/// The requests after one poll.
pub open spec fn running_after(
    m: Map<usize, RequestView>,
    i: Intake,
    fill: Fill,
) -> Map<usize, RequestView> {
    match (status_after(i, fill), fill) {
        (ConStatus::Pending, _) => m,
        (ConStatus::Taken(_), Fill::Ready(b)) => deliver_all(m, reading(i, b@).fragments),
        _ => m.map_values(|r: RequestView| give_up(r)),
    }
}

/// How far the bytes have been read after one poll.
pub open spec fn intake_after(i: Intake, fill: Fill) -> Intake {
    match (status_after(i, fill), fill) {
        (ConStatus::Taken(_), Fill::Ready(b)) => {
            let r = reading(i, b@);
            Intake {
                at: r.at,
                early: if r.rest.len() < b@.len() {
                    Seq::empty()
                } else {
                    r.rest
                },
            }
        },
        _ => i,
    }
}

/// Whether `wakers` are those that one poll wakes.
pub open spec fn woken_after(
    m: Map<usize, RequestView>,
    i: Intake,
    fill: Fill,
    wakers: Seq<Waker>,
) -> bool {
    match (status_after(i, fill), fill) {
        (ConStatus::Pending, _) => wakers.len() == 0,
        (ConStatus::Taken(_), Fill::Ready(b)) => wakers == woken_all(
            m,
            reading(i, b@).fragments,
        ),
        _ => all_wakers(m, wakers),
    }
}

/// What one poll reads.
pub open spec fn read_by(i: Intake, fill: Fill) -> Seq<Fragment> {
    match (status_after(i, fill), fill) {
        (ConStatus::Taken(_), Fill::Ready(b)) => reading(i, b@).fragments,
        _ => Seq::empty(),
    }
}

/// Whether `events` are those of one poll: who is to be woken, what was written to STDERR for
/// requests that run, and which of them ended.
pub open spec fn events_after(
    m: Map<usize, RequestView>,
    i: Intake,
    fill: Fill,
    events: Events,
) -> bool {
    &&& woken_after(m, i, fill, events.wakers@)
    &&& events.said() == errors_of(m.dom(), read_by(i, fill))
    &&& events.ended@ == ends_of(m.dom(), read_by(i, fill))
}

/// Shared object to read from a `Connection`
///
/// Manages all requests on it and distributes data to them
pub struct InnerConnection<RW> {
    pub io: FCGIWriter<RW>,
    /// all requests with pending responses
    pub running_requests: Slab<FCGIRequest>,
    pub fcgi_parser: RecordReader,
    /// taken from the socket, but too few bytes to be read
    pub early: Bytes,
}

impl<RW> InnerConnection<RW> {
    pub open spec fn wf(self) -> bool {
        &&& self.io.wf()
        &&& self.fcgi_parser.wf()
        &&& slab_wf(self.running_requests)
    }

    /// The requests that run, by key.
    pub open spec fn running(self) -> Map<usize, RequestView> {
        running(self.running_requests)
    }

    /// How far the bytes from the transport have been read.
    pub open spec fn intake(self) -> Intake {
        Intake { at: self.fcgi_parser@, early: contents(self.early) }
    }

    /// A connection without requests, for up to `max_req_per_con` of them.
    pub fn new(io: RW, max_req_per_con: u16) -> (r: InnerConnection<RW>)
        ensures
            r.wf(),
            r.io.io == io,
            r.io.queued() == Seq::<u8>::empty(),
            r.running() == Map::<usize, RequestView>::empty(),
            slots(r.running_requests) == 0,
            r.intake() == (Intake { at: start(), early: Seq::empty() }),
    {
        let r = InnerConnection {
            io: FCGIWriter::new(io),
            running_requests: slab_with_capacity(max_req_per_con),
            fcgi_parser: RecordReader::new(),
            early: Bytes::new(),
        };
        assert(contents(r.early) =~= Seq::<u8>::empty());
        assert(r.running() =~= Map::<usize, RequestView>::empty());
        r
    }

    /// Goes on with another transport.
    pub fn reconnect(&mut self, io: RW)
        requires
            old(self).wf(),
        ensures
            final(self).wf(),
            final(self).io.io == io,
            final(self).io.queued() == Seq::<u8>::empty(),
            final(self).running_requests == old(self).running_requests,
            final(self).intake() == (Intake { at: start(), early: Seq::empty() }),
    {
        self.io = FCGIWriter::new(io);
        self.fcgi_parser = RecordReader::new();
        self.early = Bytes::new();
        assert(contents(self.early) =~= Seq::<u8>::empty());
    }

    /// Whether a request id is left for another request.
    pub fn has_room(&self) -> (r: bool)
        ensures
            r == (requests(self.running_requests).dom().len() < 0xffff),
    {
        slab_len(&self.running_requests) < 0xffff
    }

    /// Sets up a request under an id that is not in use, and tells the application.
    ///
    /// No id is bigger than the number of slots, and there are never more slots than there
    /// were requests at the same time.
    pub fn start_request(&mut self, permit: OwnedSemaphorePermit) -> (rid: u16)
        requires
            old(self).wf(),
            requests(old(self).running_requests).dom().len() < 0xffff,
        ensures
            final(self).wf(),
            rid > 0,
            !old(self).running().dom().contains(key_of(rid)),
            final(self).running() == old(self).running().insert(
                key_of(rid),
                RequestView { chunks: Seq::empty(), waker: None, ended: false, permit },
            ),
            rid <= slots(final(self).running_requests),
            slots(final(self).running_requests) == slots(old(self).running_requests) || slots(
                final(self).running_requests,
            ) == requests(old(self).running_requests).dom().len() + 1,
            final(self).fcgi_parser == old(self).fcgi_parser,
            final(self).early == old(self).early,
            final(self).io.io == old(self).io.io,
            final(self).io.queued() == old(self).io.queued() + item_bytes(
                FCGIType::BeginRequest {
                    request_id: rid,
                    role: FastCGIRole::Responder,
                    flags: BeginRequestBody::KEEP_CONN,
                },
            ),
    {
        let ghost before = *self;
        let pending = FCGIRequest {
            buf: BufList::new(),
            waker: None,
            ended: false,
            _permit: permit,
        };
        assert(pending.buf.chunks() =~= Seq::empty());
        let key: usize = slab_insert(&mut self.running_requests, pending);
        proof {
            assert(slab_wf(before.running_requests));
            assert(self.running() =~= before.running().insert(key, pending@));
        }
        let rid: u16 = key as u16 + 1;
        let br = FCGIType::BeginRequest {
            request_id: rid,
            role: FastCGIRole::Responder,
            flags: BeginRequestBody::KEEP_CONN,
        };
        self.io.encode(br);
        rid
    }

    /// Tells the application to drop a request.
    pub fn abort_req(&mut self, request_id: u16)
        requires
            old(self).wf(),
        ensures
            final(self).wf(),
            final(self).running_requests == old(self).running_requests,
            final(self).fcgi_parser == old(self).fcgi_parser,
            final(self).early == old(self).early,
            final(self).io.io == old(self).io.io,
            final(self).io.queued() == old(self).io.queued() + item_bytes(
                FCGIType::AbortRequest { request_id },
            ),
    {
        self.io.encode(FCGIType::AbortRequest { request_id });
    }

    /// What was taken early, and `data` behind it.
    fn joined(&self, data: &[u8]) -> (r: Bytes)
        requires
            contents(self.early).len() + data@.len() <= isize::MAX,
        ensures
            contents(r) == self.intake().early + data@,
    {
        if self.early.len() == 0 {
            assert(contents(self.early) + data@ =~= data@);
            return Bytes::copy_from_slice(data);
        }
        let mut buf = BytesMut::with_capacity(self.early.len() + data.len());
        put_slice(&mut buf, chunk(&self.early));
        put_slice(&mut buf, data);
        assert(written(buf) =~= contents(self.early) + data@);
        buf.freeze()
    }

    /// Whether `data` can be read: every header is of a known type, every body can be taken
    /// apart, and one buffer can hold what there is to read.
    pub fn can_read(&self, data: &[u8]) -> (r: bool)
        requires
            self.wf(),
        ensures
            r == takes(self.intake(), data@),
    {
        let early: usize = self.early.len();
        let max: usize = isize::MAX as usize;
        if early > max || data.len() > max - early {
            return false;
        }
        let mut rest = self.joined(data);
        let mut parser = RecordReader {
            current: self.fcgi_parser.current,
            held: self.fcgi_parser.held.clone(),
            skip: self.fcgi_parser.skip,
        };
        assert(parser@ =~= self.fcgi_parser@);
        loop
            invariant
                parser.wf(),
                contents(self.early).len() + data@.len() <= isize::MAX,
                takes(self.intake(), data@) == all_readable(parser@, contents(rest)),
            decreases contents(rest).len(),
        {
            if !parser.is_readable(&rest) {
                return false;
            }
            proof {
                lemma_step(parser@, contents(rest));
            }
            if parser.read(&mut rest).is_none() {
                return true;
            }
        }
    }

    /// drive this connection
    /// Parse and distribute data from the socket.
    ///
    /// The connection was closed if there is no data. Data that holds no more than a part of a
    /// header, or of padding, is taken and kept until the rest arrives.
    pub fn poll_resp(&mut self, fill: Fill) -> (r: (ConStatus, Events))
        requires
            old(self).wf(),
            pollable(old(self).intake(), fill),
        ensures
            final(self).wf(),
            slots(final(self).running_requests) == slots(old(self).running_requests),
            final(self).io == old(self).io,
            r.0 == status_after(old(self).intake(), fill),
            events_after(old(self).running(), old(self).intake(), fill, r.1),
            final(self).running() == running_after(old(self).running(), old(self).intake(), fill),
            final(self).intake() == intake_after(old(self).intake(), fill),
    {
        match fill {
            Fill::Ready(rbuf) => {
                let available: usize = rbuf.len();
                if available == 0 {
                    let mut events = Events::new();
                    events.wakers = self.notify_everyone();
                    return (ConStatus::Closed, events);
                }
                let mut data = self.joined(rbuf);
                let events = Self::parse_and_distribute(
                    &mut data,
                    &mut self.running_requests,
                    &mut self.fcgi_parser,
                );
                let left: usize = data.len();
                let read: usize = if left < available {
                    self.early = Bytes::new();
                    assert(contents(self.early) =~= Seq::<u8>::empty());
                    available - left
                } else {
                    self.early = data;
                    available
                };
                (ConStatus::Taken(read), events)
            },
            Fill::Failed { .. } => {
                let mut events = Events::new();
                events.wakers = self.notify_everyone();
                (ConStatus::Failed, events)
            },
            Fill::Pending => (ConStatus::Pending, Events::new()),
        }
    }

    /// Whether the connection is still alive. Whatever has been read meanwhile is
    /// distributed.
    pub fn check_alive(&mut self, fill: Fill) -> (r: (Liveness, ConStatus, Events))
        requires
            old(self).wf(),
            pollable(old(self).intake(), fill),
        ensures
            final(self).wf(),
            slots(final(self).running_requests) == slots(old(self).running_requests),
            final(self).io == old(self).io,
            r.1 == status_after(old(self).intake(), fill),
            events_after(old(self).running(), old(self).intake(), fill, r.2),
            final(self).running() == running_after(old(self).running(), old(self).intake(), fill),
            final(self).intake() == intake_after(old(self).intake(), fill),
            r.0 == match (r.1, fill) {
                (ConStatus::Closed, _) => Liveness::Dead,
                (ConStatus::Failed, Fill::Failed { not_connected: true }) => Liveness::Dead,
                (ConStatus::Failed, _) => Liveness::Failed,
                _ => Liveness::Alive,
            },
    {
        let not_connected = match fill {
            Fill::Failed { not_connected } => not_connected,
            _ => false,
        };
        let (status, events) = self.poll_resp(fill);
        let alive = match status {
            ConStatus::Closed => Liveness::Dead,
            ConStatus::Failed => {
                if not_connected {
                    Liveness::Dead
                } else {
                    Liveness::Failed
                }
            },
            _ => Liveness::Alive,
        };
        (alive, status, events)
    }

    /// Something happened. We are done with everything
    pub fn notify_everyone(&mut self) -> (wakers: Vec<Waker>)
        requires
            old(self).wf(),
        ensures
            final(self).wf(),
            slots(final(self).running_requests) == slots(old(self).running_requests),
            final(self).running() == old(self).running().map_values(
                |r: RequestView| give_up(r),
            ),
            all_wakers(old(self).running(), wakers@),
            final(self).io == old(self).io,
            final(self).fcgi_parser == old(self).fcgi_parser,
            final(self).early == old(self).early,
    {
        let mut wakers: Vec<Waker> = Vec::new();
        let ghost m = self.running();
        let keys = slab_keys(&self.running_requests);
        let mut i: usize = 0;
        assert(sorted_keys(m, keys@));
        assert(keys@.take(0) =~= Seq::empty());
        while i < keys.len()
            invariant
                i <= keys@.len(),
                m == old(self).running(),
                sorted_keys(m, keys@),
                self.wf(),
                slots(self.running_requests) == slots(old(self).running_requests),
                self.io == old(self).io,
                self.fcgi_parser == old(self).fcgi_parser,
                self.early == old(self).early,
                self.running().dom() == m.dom(),
                forall|k: usize|
                    #![trigger self.running()[k]]
                    m.dom().contains(k) ==> self.running()[k] == if keys@.take(
                        i as int,
                    ).contains(k) {
                        give_up(m[k])
                    } else {
                        m[k]
                    },
                wakers@ == woken_keys(m, keys@.take(i as int)),
            decreases keys@.len() - i,
        {
            let ghost before = *self;
            let ghost woke = wakers@;
            let key: usize = keys[i];
            proof {
                assert(keys@.contains(key));
                assert(!keys@.take(i as int).contains(key));
                assert(self.running()[key] == m[key]);
                assert(keys@.take(i + 1).drop_last() =~= keys@.take(i as int));
                assert forall|k: usize| keys@.take(i + 1).contains(k) <==> (keys@.take(
                    i as int,
                ).contains(k) || k == key) by {
                    if keys@.take(i as int).contains(k) {
                        let j = choose|j: int| 0 <= j < i && keys@.take(i as int)[j] == k;
                        assert(keys@.take(i + 1)[j] == k);
                    }
                    assert(keys@.take(i + 1)[i as int] == key);
                }
            }
            if let Some(mpxs) = slab_get_mut(&mut self.running_requests, key) {
                if let Some(waker) = mpxs.waker.take() {
                    wakers.push(waker);
                }
                mpxs.ended = true;
            }
            proof {
                assert(self.running() =~= before.running().insert(key, give_up(m[key])));
                assert(wakers@ =~= woke + woken_by(m[key], give_up(m[key])));
            }
            i += 1;
        }
        proof {
            assert(keys@.take(i as int) =~= keys@);
            assert(self.running() =~= m.map_values(|r: RequestView| give_up(r)));
        }
        wakers
    }

    /// Puts data that was read ahead before what waits for the request `id`: it came first.
    pub fn push_body(&mut self, id: u16, data: Bytes)
        requires
            old(self).wf(),
            id > 0,
            old(self).running().dom().contains(key_of(id)),
            contents(data).len() > 0,
        ensures
            final(self).wf(),
            final(self).io == old(self).io,
            final(self).fcgi_parser == old(self).fcgi_parser,
            final(self).early == old(self).early,
            slots(final(self).running_requests) == slots(old(self).running_requests),
            ({
                let r = old(self).running()[key_of(id)];
                final(self).running() == old(self).running().insert(
                    key_of(id),
                    RequestView { chunks: seq![contents(data)] + r.chunks, ..r },
                )
            }),
    {
        let ghost m = self.running();
        let key: usize = (id - 1) as usize;
        if let Some(r) = slab_get_mut(&mut self.running_requests, key) {
            r.buf.push_front(data);
        }
        proof {
            let r = m[key_of(id)];
            assert(self.running() =~= m.insert(
                key_of(id),
                RequestView { chunks: seq![contents(data)] + r.chunks, ..r },
            ));
        }
    }

    /// Reads `data` as far as it goes and hands each record to the request it is for. Each
    /// request gets its standard output in order, and has ended if it had or if its end was
    /// read.
    #[verifier::spinoff_prover]
    pub fn parse_and_distribute(
        data: &mut Bytes,
        running_requests: &mut Slab<FCGIRequest>,
        fcgi_parser: &mut RecordReader,
    ) -> (events: Events)
        requires
            old(fcgi_parser).wf(),
            slab_wf(*old(running_requests)),
            all_readable(old(fcgi_parser)@, contents(*old(data))),
        ensures
            final(fcgi_parser).wf(),
            slab_wf(*final(running_requests)),
            slots(*final(running_requests)) == slots(*old(running_requests)),
            ({
                let all = read_all(old(fcgi_parser)@, contents(*old(data)));
                let m = running(*old(running_requests));
                &&& final(fcgi_parser)@ == all.at
                &&& contents(*final(data)) == all.rest
                &&& running(*final(running_requests)) == deliver_all(m, all.fragments)
                &&& events.wakers@ == woken_all(m, all.fragments)
                &&& events.said() == errors_of(m.dom(), all.fragments)
                &&& events.ended@ == ends_of(m.dom(), all.fragments)
            }),
            running(*final(running_requests)).dom() == running(*old(running_requests)).dom(),
            forall|id: u16|
                #![trigger running(*old(running_requests))[key_of(id)]]
                #![trigger running(*final(running_requests))[key_of(id)]]
                id > 0 && running(*old(running_requests)).dom().contains(key_of(id)) ==> {
                    let fs = read_all(old(fcgi_parser)@, contents(*old(data))).fragments;
                    let before = running(*old(running_requests))[key_of(id)];
                    let after = running(*final(running_requests))[key_of(id)];
                    &&& after.chunks.flatten() == before.chunks.flatten() + stream(
                        fs,
                        RecordType::StdOut,
                        id,
                    )
                    &&& after.ended == (before.ended || seen(fs, RecordType::EndRequest, id))
                },
    {
        let mut events = Events::new();
        let ghost all = read_all(fcgi_parser@, contents(*data));
        let ghost m0 = running(*running_requests);
        proof {
            lemma_under_way_start(fcgi_parser@, contents(*data), m0, events);
        }
        loop
            invariant_except_break
                fcgi_parser.wf(),
                slab_wf(*running_requests),
                slots(*running_requests) == slots(*old(running_requests)),
                under_way(
                    all,
                    m0,
                    fcgi_parser@,
                    contents(*data),
                    running(*running_requests),
                    events,
                ),
            ensures
                fcgi_parser.wf(),
                slab_wf(*running_requests),
                slots(*running_requests) == slots(*old(running_requests)),
                fcgi_parser@ == all.at,
                contents(*data) == all.rest,
                ahead(m0, all.fragments, running(*running_requests), Seq::empty(), events),
            decreases contents(*data).len(),
        {
            let ghost m = running(*running_requests);
            let ghost at = fcgi_parser@;
            let ghost s = contents(*data);
            let ghost before = events;
            proof {
                lemma_under_way(all, m0, at, s, m, events);
            }
            if !Self::take_one(data, running_requests, fcgi_parser, &mut events) {
                break ;
            }
            proof {
                lemma_under_way_step(all, m0, at, s, m, before, events);
            }
        }
        proof {
            lemma_ahead_end(m0, all.fragments, running(*running_requests), events);
        }
        proof {
            assert forall|id: u16|
                #![trigger m0[key_of(id)]]
                #![trigger running(*running_requests)[key_of(id)]]
                id > 0 && m0.dom().contains(key_of(id)) implies {
                let before = m0[key_of(id)];
                let after = running(*running_requests)[key_of(id)];
                &&& after.chunks.flatten() == before.chunks.flatten() + stream(
                    all.fragments,
                    RecordType::StdOut,
                    id,
                )
                &&& after.ended == (before.ended || seen(
                    all.fragments,
                    RecordType::EndRequest,
                    id,
                ))
            } by {
                law_delivery(m0, all.fragments, id);
            }
        }
        events
    }

    /// Reads what `data` holds of the next record and hands it to the request it is for.
    /// Returns whether there was something.
    fn take_one(
        data: &mut Bytes,
        running_requests: &mut Slab<FCGIRequest>,
        fcgi_parser: &mut RecordReader,
        events: &mut Events,
    ) -> (more: bool)
        requires
            old(fcgi_parser).wf(),
            slab_wf(*old(running_requests)),
            step_readable(old(fcgi_parser)@, contents(*old(data))),
        ensures
            final(fcgi_parser).wf(),
            slab_wf(*final(running_requests)),
            slots(*final(running_requests)) == slots(*old(running_requests)),
            ({
                let step = read_step(old(fcgi_parser)@, contents(*old(data)));
                let m = running(*old(running_requests));
                &&& final(fcgi_parser)@ == step.at
                &&& contents(*final(data)) == step.rest
                &&& more == (step.fragment is Some)
                &&& match step.fragment {
                    None => *final(running_requests) == *old(running_requests) && *final(events)
                        == *old(events),
                    Some(f) => {
                        &&& running(*final(running_requests)) == deliver(m, f)
                        &&& brought(m, f, *old(events), *final(events))
                    },
                }
            }),
    {
        let ghost step = read_step(fcgi_parser@, contents(*data));
        match fcgi_parser.read(data) {
            None => false,
            Some(r) => {
                InnerConnection::<RW>::distribute(
                    r,
                    running_requests,
                    events,
                    Ghost(step.fragment->0),
                );
                true
            },
        }
    }

    /// Hands a record to the request it is for.
    fn distribute(
        r: Record,
        running_requests: &mut Slab<FCGIRequest>,
        events: &mut Events,
        Ghost(f): Ghost<Fragment>,
    )
        requires
            slab_wf(*old(running_requests)),
            r.header == f.header,
            body_of(f.payload, f.header.rtype) == Some(r.body@),
        ensures
            slab_wf(*final(running_requests)),
            slots(*final(running_requests)) == slots(*old(running_requests)),
            running(*final(running_requests)) == deliver(running(*old(running_requests)), f),
            brought(running(*old(running_requests)), f, *old(events), *final(events)),
    {
        let ghost m = running(*running_requests);
        let ghost before = requests(*running_requests);
        proof {
            assert(events.wakers@ + Seq::<Waker>::empty() =~= events.wakers@);
            assert(events.said() + Seq::<(u16, Seq<u8>)>::empty() =~= events.said());
            assert(events.ended@ + Seq::<(u16, EndRequestBody)>::empty() =~= events.ended@);
        }
        let id = r.get_request_id();
        if id == 0 {
            //mgmt record
            return ;
        }
        let req_no = id - 1;
        let key: usize = req_no as usize;
        assert(key == key_of(id));
        match slab_get_mut(running_requests, key) {
            Some(mpxs) => {
                match r.body {
                    Body::EndRequest(status) => {
                        events.ended.push((id, status));
                        mpxs.ended = true;
                        if let Some(waker) = mpxs.waker.take() {
                            events.wakers.push(waker);
                        }
                    },
                    Body::StdOut(s) => {
                        if s.len() > 0 {
                            mpxs.buf.push(s);
                            if let Some(waker) = mpxs.waker.take() {
                                events.wakers.push(waker);
                            }
                        }
                    },
                    Body::StdErr(s) => {
                        events.errors.push((id, s));
                    },
                    _ => {},
                }
            },
            None => {
                //not a pending req ID
            },
        }
        proof {
            assert(running(*running_requests) =~= deliver(m, f));
            assert(events.wakers@ =~= old(events).wakers@ + woken(m, f));
            assert(events.said() =~= old(events).said() + error_in(m.dom(), f));
            assert(events.ended@ =~= old(events).ended@ + end_in(m.dom(), f));
        }
    }
}

/// Whether `after` is `before` with what `f` brings behind it.
spec fn brought(m: Map<usize, RequestView>, f: Fragment, before: Events, after: Events) -> bool {
    &&& after.wakers@ == before.wakers@ + woken(m, f)
    &&& after.said() == before.said() + error_in(m.dom(), f)
    &&& after.ended@ == before.ended@ + end_in(m.dom(), f)
}

/// Whether `events` and what `fs` still bring to the requests `m` are what all of `fs0` bring
/// to the requests `m0`.
#[verifier::opaque]
spec fn ahead(
    m0: Map<usize, RequestView>,
    fs0: Seq<Fragment>,
    m: Map<usize, RequestView>,
    fs: Seq<Fragment>,
    events: Events,
) -> bool {
    &&& m.dom() == m0.dom()
    &&& deliver_all(m0, fs0) == deliver_all(m, fs)
    &&& woken_all(m0, fs0) == events.wakers@ + woken_all(m, fs)
    &&& errors_of(m0.dom(), fs0) == events.said() + errors_of(m.dom(), fs)
    &&& ends_of(m0.dom(), fs0) == events.ended@ + ends_of(m.dom(), fs)
}

proof fn lemma_ahead_start(m0: Map<usize, RequestView>, fs0: Seq<Fragment>, events: Events)
    requires
        events.wakers@ == Seq::<Waker>::empty(),
        events.said() == Seq::<(u16, Seq<u8>)>::empty(),
        events.ended@ == Seq::<(u16, EndRequestBody)>::empty(),
    ensures
        ahead(m0, fs0, m0, fs0, events),
{
    reveal(ahead);
    assert(events.wakers@ + woken_all(m0, fs0) =~= woken_all(m0, fs0));
    assert(events.said() + errors_of(m0.dom(), fs0) =~= errors_of(m0.dom(), fs0));
    assert(events.ended@ + ends_of(m0.dom(), fs0) =~= ends_of(m0.dom(), fs0));
}

proof fn lemma_ahead_step(
    m0: Map<usize, RequestView>,
    fs0: Seq<Fragment>,
    m: Map<usize, RequestView>,
    f: Fragment,
    fs: Seq<Fragment>,
    before: Events,
    after: Events,
)
    requires
        ahead(m0, fs0, m, seq![f] + fs, before),
        brought(m, f, before, after),
    ensures
        ahead(m0, fs0, deliver(m, f), fs, after),
{
    reveal(ahead);
    let keys = m.dom();
    assert((seq![f] + fs).drop_first() =~= fs);
    assert(deliver(m, f).dom() =~= keys);
    lemma_assoc_of(before.wakers@, woken(m, f), woken_all(deliver(m, f), fs));
    lemma_assoc_of(before.said(), error_in(keys, f), errors_of(keys, fs));
    lemma_assoc_of(before.ended@, end_in(keys, f), ends_of(keys, fs));
}

proof fn lemma_ahead_end(
    m0: Map<usize, RequestView>,
    fs0: Seq<Fragment>,
    m: Map<usize, RequestView>,
    events: Events,
)
    requires
        ahead(m0, fs0, m, Seq::empty(), events),
    ensures
        m.dom() == m0.dom(),
        m == deliver_all(m0, fs0),
        events.wakers@ == woken_all(m0, fs0),
        events.said() == errors_of(m0.dom(), fs0),
        events.ended@ == ends_of(m0.dom(), fs0),
{
    reveal(ahead);
    let none = Seq::<Fragment>::empty();
    assert(events.wakers@ + woken_all(m, none) =~= events.wakers@);
    assert(events.said() + errors_of(m.dom(), none) =~= events.said());
    assert(events.ended@ + ends_of(m.dom(), none) =~= events.ended@);
}

/// One read, and what is read then.
proof fn lemma_next(at: Place, s: Seq<u8>)
    requires
        waiting(at),
        all_readable(at, s),
    ensures
        step_readable(at, s),
        ({
            let step = read_step(at, s);
            let all = read_all(at, s);
            let more = read_all(step.at, step.rest);
            &&& waiting(step.at)
            &&& match step.fragment {
                None => all.at == step.at && all.rest == step.rest && all.fragments
                    == Seq::<Fragment>::empty(),
                Some(f) => {
                    &&& step.rest.len() < s.len()
                    &&& all_readable(step.at, step.rest)
                    &&& all.at == more.at
                    &&& all.rest == more.rest
                    &&& all.fragments == seq![f] + more.fragments
                },
            }
        }),
{
    lemma_step(at, s);
}

/// Whether reading `s` is what is left of reading all, and `events` are what it has brought.
#[verifier::opaque]
spec fn under_way(
    all: Reading,
    m0: Map<usize, RequestView>,
    at: Place,
    s: Seq<u8>,
    m: Map<usize, RequestView>,
    events: Events,
) -> bool {
    let more = read_all(at, s);
    &&& waiting(at)
    &&& all_readable(at, s)
    &&& all.at == more.at
    &&& all.rest == more.rest
    &&& ahead(m0, all.fragments, m, more.fragments, events)
}

proof fn lemma_under_way_start(
    at: Place,
    s: Seq<u8>,
    m0: Map<usize, RequestView>,
    events: Events,
)
    requires
        waiting(at),
        all_readable(at, s),
        events.wakers@ == Seq::<Waker>::empty(),
        events.said() == Seq::<(u16, Seq<u8>)>::empty(),
        events.ended@ == Seq::<(u16, EndRequestBody)>::empty(),
    ensures
        under_way(read_all(at, s), m0, at, s, m0, events),
{
    reveal(under_way);
    lemma_ahead_start(m0, read_all(at, s).fragments, events);
}

proof fn lemma_under_way(
    all: Reading,
    m0: Map<usize, RequestView>,
    at: Place,
    s: Seq<u8>,
    m: Map<usize, RequestView>,
    events: Events,
)
    requires
        under_way(all, m0, at, s, m, events),
    ensures
        step_readable(at, s),
        ({
            let step = read_step(at, s);
            match step.fragment {
                Some(_) => step.rest.len() < s.len(),
                None => step.at == all.at && step.rest == all.rest && ahead(
                    m0,
                    all.fragments,
                    m,
                    Seq::empty(),
                    events,
                ),
            }
        }),
{
    reveal(under_way);
    lemma_next(at, s);
}

proof fn lemma_under_way_step(
    all: Reading,
    m0: Map<usize, RequestView>,
    at: Place,
    s: Seq<u8>,
    m: Map<usize, RequestView>,
    before: Events,
    after: Events,
)
    requires
        under_way(all, m0, at, s, m, before),
        read_step(at, s).fragment matches Some(f) && brought(m, f, before, after),
    ensures
        ({
            let step = read_step(at, s);
            under_way(all, m0, step.at, step.rest, deliver(m, step.fragment->0), after)
        }),
{
    reveal(under_way);
    lemma_next(at, s);
    let step = read_step(at, s);
    let fs = read_all(step.at, step.rest).fragments;
    lemma_ahead_step(m0, all.fragments, m, step.fragment->0, fs, before, after);
}

/// The order in which sequences are joined does not matter.
proof fn lemma_assoc_of<A>(a: Seq<A>, b: Seq<A>, c: Seq<A>)
    ensures
        a + (b + c) == a + b + c,
{
    assert(a + (b + c) =~= a + b + c);
}

} // verus!
