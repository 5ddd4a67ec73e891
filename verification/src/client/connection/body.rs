//! The body of a response.
use bytes::Bytes;
use std::task::Waker;
use vstd::prelude::*;

use crate::buffer::contents;
use crate::client::connection::inner::{
    events_after, intake_after, key_of, pollable, running_after, status_after, ConStatus, Events,
    Fill, InnerConnection,
};
use crate::client::connection::requests::{
    requests, slab_contains, slab_get_mut, slab_remove, RequestView,
};
use crate::codec::{item_bytes, FCGIType};

verus! {

/// state of the body
#[derive(Debug, Clone, Copy, PartialEq, Eq, Structural)]
pub enum ServerState {
    /// the server closed STDOUT
    Done(u16),
    /// the server is still sending answers.
    /// We can abort
    Running(u16),
}

impl ServerState {
    pub open spec fn request_id(self) -> u16 {
        match self {
            ServerState::Done(id) => id,
            ServerState::Running(id) => id,
        }
    }

    pub fn id(&self) -> (r: u16)
        ensures
            r == self.request_id(),
    {
        match self {
            ServerState::Done(id) => *id,
            ServerState::Running(id) => *id,
        }
    }

    /// this is done
    pub fn mark_done(&mut self)
        ensures
            *final(self) == ServerState::Done(old(self).request_id()),
    {
        *self = ServerState::Done(self.id());
    }
}

/// This is the STDOUT of a FastCGI Application.
/// STDERR is logged: each poll hands out what was written to it, see [`Events::errors`].
pub struct FCGIBody {
    /// request is no longer polled by forward
    pub was_returned: bool,
    pub transaction: ServerState,
}

/// What a poll of the body comes to.
pub enum Frame {
    /// A chunk of the body.
    Data(Bytes),
    /// The body is complete.
    End,
    /// There is nothing yet. The waker was kept.
    Pending,
}

/// What a frame holds.
pub enum FrameView {
    Data(Seq<u8>),
    End,
    Pending,
}

impl View for Frame {
    type V = FrameView;

    open spec fn view(&self) -> FrameView {
        match *self {
            Frame::Data(b) => FrameView::Data(contents(b)),
            Frame::End => FrameView::End,
            Frame::Pending => FrameView::Pending,
        }
    }
}

/// The frame that the body of the request under `k` gives, when the requests are `m`.
pub open spec fn next_frame(m: Map<usize, RequestView>, k: usize) -> FrameView {
    if !m.dom().contains(k) {
        FrameView::End
    } else if m[k].chunks.len() > 0 {
        FrameView::Data(m[k].chunks[0])
    } else if m[k].ended {
        FrameView::End
    } else {
        FrameView::Pending
    }
}

/// Whether that frame is the last thing that anybody wants to know of the request: a body
/// that was handed over is released with its last chunk.
pub open spec fn released(m: Map<usize, RequestView>, k: usize, was_returned: bool) -> bool {
    m.dom().contains(k) ==> was_returned && m[k].ended && m[k].chunks.len() <= 1
}

/// The requests after that frame was taken.
pub open spec fn after_frame(
    m: Map<usize, RequestView>,
    k: usize,
    was_returned: bool,
    waker: Waker,
) -> Map<usize, RequestView> {
    if !m.dom().contains(k) {
        m
    } else if released(m, k, was_returned) {
        m.remove(k)
    } else {
        match next_frame(m, k) {
            FrameView::Data(_) => m.insert(
                k,
                RequestView { chunks: m[k].chunks.drop_first(), ..m[k] },
            ),
            FrameView::End => m,
            FrameView::Pending => m.insert(k, RequestView { waker: Some(waker), ..m[k] }),
        }
    }
}

impl FCGIBody {
    /// The body of the request `id`, of which nothing has been read.
    pub fn new(id: u16) -> (r: FCGIBody)
        ensures
            !r.was_returned,
            r.transaction == ServerState::Running(id),
    {
        FCGIBody { was_returned: false, transaction: ServerState::Running(id) }
    }

    pub fn id(&self) -> (r: u16)
        ensures
            r == self.transaction.request_id(),
    {
        self.transaction.id()
    }

    /// Whether the body is complete, so that nothing is to be polled or released any more.
    pub fn is_done(&self) -> (r: bool)
        ensures
            r == (self.transaction is Done),
    {
        match self.transaction {
            ServerState::Done(_) => true,
            ServerState::Running(_) => false,
        }
    }

    /// Get a chunk of STDOUT data from this FCGI application request stream
    ///
    /// The connection is polled first, and whatever it gives is handed to the requests. A
    /// body that is done does not poll.
    pub fn poll_frame<RW>(
        &mut self,
        inner: &mut InnerConnection<RW>,
        fill: Fill,
        waker: Waker,
    ) -> (r: (Frame, ConStatus, Events))
        requires
            old(inner).wf(),
            old(self).transaction.request_id() > 0,
            pollable(old(inner).intake(), fill),
        ensures
            final(inner).wf(),
            final(inner).io == old(inner).io,
            final(self).was_returned == old(self).was_returned,
            match old(self).transaction {
                ServerState::Done(_) => {
                    &&& r.0@ == FrameView::End
                    &&& r.1 == ConStatus::Pending
                    &&& r.2.wakers@.len() == 0
                    &&& r.2.said().len() == 0
                    &&& r.2.ended@.len() == 0
                    &&& *final(inner) == *old(inner)
                    &&& final(self).transaction == old(self).transaction
                },
                ServerState::Running(id) => {
                    let i = old(inner).intake();
                    let m = running_after(old(inner).running(), i, fill);
                    let k = key_of(id);
                    &&& r.0@ == next_frame(m, k)
                    &&& r.1 == status_after(i, fill)
                    &&& events_after(old(inner).running(), i, fill, r.2)
                    &&& final(inner).running() == after_frame(
                        m,
                        k,
                        old(self).was_returned,
                        waker,
                    )
                    &&& final(inner).intake() == intake_after(i, fill)
                    &&& final(self).transaction == if released(m, k, old(self).was_returned) {
                        ServerState::Done(id)
                    } else {
                        old(self).transaction
                    }
                },
            },
    {
        let rid: u16 = self.transaction.id() - 1;
        if let ServerState::Done(_) = self.transaction {
            return (Frame::End, ConStatus::Pending, Events::new());
        }
        let key: usize = rid as usize;
        //poll connection and distribute new data
        let (status, events) = inner.poll_resp(fill);
        let ghost polled = *inner;
        let ghost m = inner.running();
        proof {
            assert(m.dom() =~= requests(inner.running_requests).dom());
        }

        let mut last = false;
        let frame = match slab_get_mut(&mut inner.running_requests, key) {
            None => {
                self.transaction.mark_done();
                Frame::End
            },
            Some(slab) => {
                let ghost before = slab.buf;
                match slab.buf.oldest() {
                    Some(data) => {
                        proof {
                            assert(slab.buf.chunks() =~= before.chunks().drop_first());
                            assert forall|i: int| 0 <= i < slab.buf.bufs@.len() implies contents(
                                #[trigger] slab.buf.bufs@[i],
                            ).len() > 0 by {
                                assert(slab.buf.bufs@[i] == before.bufs@[i + 1]);
                            }
                        }
                        //ret rid of this as fast as possible,
                        //it blocks us and clients might stop reading
                        last = self.was_returned && slab.ended && !slab.buf.has_remaining();
                        Frame::Data(data)
                    },
                    None => {
                        //data buffer empty
                        if slab.ended {
                            last = self.was_returned;
                            Frame::End
                        } else {
                            //store waker
                            slab.waker = Some(waker);
                            Frame::Pending
                        }
                    },
                }
            },
        };
        if last {
            let _ = slab_remove(&mut inner.running_requests, key);
            self.transaction.mark_done();
        }
        proof {
            assert(inner.running() =~= after_frame(m, key, self.was_returned, waker));
        }
        (frame, status, events)
    }
}

impl<RW> InnerConnection<RW> {
    /// Lets go of a body. One that is not done still runs at the application: its request is
    /// forgotten and aborted.
    pub fn drop_body(&mut self, body: FCGIBody)
        requires
            old(self).wf(),
            body.transaction matches ServerState::Running(id) ==> id > 0
                && old(self).running().dom().contains(key_of(id)),
        ensures
            final(self).wf(),
            match body.transaction {
                ServerState::Done(_) => *final(self) == *old(self),
                ServerState::Running(id) => {
                    &&& final(self).running() == old(self).running().remove(key_of(id))
                    &&& final(self).fcgi_parser == old(self).fcgi_parser
                    &&& final(self).early == old(self).early
                    &&& final(self).io.io == old(self).io.io
                    &&& final(self).io.queued() == old(self).io.queued() + item_bytes(
                        FCGIType::AbortRequest { request_id: id },
                    )
                },
            },
    {
        if let ServerState::Running(id) = body.transaction {
            let ghost m = self.running();
            let _ = slab_remove(&mut self.running_requests, (id - 1) as usize);
            assert(self.running() =~= m.remove(key_of(id)));
            self.abort_req(id);
        }
    }

    /// Whether the request `id` is known.
    pub fn is_running(&self, id: u16) -> (r: bool)
        requires
            id > 0,
        ensures
            r == self.running().dom().contains(key_of(id)),
    {
        slab_contains(&self.running_requests, (id - 1) as usize)
    }
}

} // verus!
