//! The requests that run on a connection.
//!
//! They are kept in a [`Slab`], which gives each of them the lowest key it has handy. What a
//! slab holds is [`requests`]; the items of this module say what the methods used in this
//! crate do to that.
use bytes::Bytes;
use slab::Slab;
use std::task::Waker;
use tokio::sync::OwnedSemaphorePermit;
use vstd::prelude::*;

use crate::bufvec::BufList;

verus! {

#[verifier::external_type_specification]
#[verifier::external_body]
pub struct ExWaker(Waker);

#[verifier::external_type_specification]
#[verifier::external_body]
pub struct ExOwnedSemaphorePermit(OwnedSemaphorePermit);

#[verifier::external_type_specification]
#[verifier::external_body]
#[verifier::reject_recursive_types(T)]
pub struct ExSlab<T>(Slab<T>);

/// Request stream
///
/// Manages one request from
/// `FCGI_BEGIN_REQUEST` to `FCGI_END_REQUEST`
pub struct FCGIRequest {
    /// stdout of the application, to be read by the body
    pub buf: BufList<Bytes>,
    /// wake me if needed
    pub waker: Option<Waker>,
    /// the FCGI server is done with this request
    pub ended: bool,
    /// respect FCGI setting for maximal requests on a single con
    pub _permit: OwnedSemaphorePermit,
}

/// What a request holds.
pub struct RequestView {
    /// The buffers that wait to be read, oldest first.
    pub chunks: Seq<Seq<u8>>,
    pub waker: Option<Waker>,
    pub ended: bool,
    pub permit: OwnedSemaphorePermit,
}

impl View for FCGIRequest {
    type V = RequestView;

    open spec fn view(&self) -> RequestView {
        RequestView {
            chunks: self.buf.chunks(),
            waker: self.waker,
            ended: self.ended,
            permit: self._permit,
        }
    }
}

/// The requests in the slab, by key.
pub uninterp spec fn requests(s: Slab<FCGIRequest>) -> Map<usize, FCGIRequest>;

/// The number of slots that the slab has set up so far, vacant ones included.
pub uninterp spec fn slots(s: Slab<FCGIRequest>) -> nat;

/// What the requests in the slab hold, by key.
pub open spec fn running(s: Slab<FCGIRequest>) -> Map<usize, RequestView> {
    requests(s).map_values(|r: FCGIRequest| r@)
}

/// No buffer of a request is empty, and there are at most as many slots as request ids.
pub open spec fn slab_wf(s: Slab<FCGIRequest>) -> bool {
    &&& requests(s).dom().finite()
    &&& slots(s) <= 0xffff
    &&& forall|k: usize| #[trigger] requests(s).dom().contains(k) ==> k < slots(s)
    &&& forall|k: usize|
        #[trigger] requests(s).dom().contains(k) ==> requests(s)[k].buf.wf()
}

/// `Slab::with_capacity` makes an empty slab without slots. It panics when the capacity is
/// more than an allocation can have.
#[verifier::external_body]
pub(crate) fn slab_with_capacity(capacity: u16) -> (s: Slab<FCGIRequest>)
    ensures
        requests(s).dom() == Set::<usize>::empty(),
        slots(s) == 0,
{
    Slab::with_capacity(capacity as usize)
}

/// `Slab::len` counts the requests.
#[verifier::external_body]
pub(crate) fn slab_len(s: &Slab<FCGIRequest>) -> (n: usize)
    ensures
        n == requests(*s).dom().len(),
{
    s.len()
}

/// `Slab::contains` tells whether there is a request under `key`.
#[verifier::external_body]
pub(crate) fn slab_contains(s: &Slab<FCGIRequest>, key: usize) -> (r: bool)
    ensures
        r == requests(*s).dom().contains(key),
{
    s.contains(key)
}

/// `Slab::insert` puts the request under a key that was not in use: that of a vacant slot,
/// or that of a new one at the end if all slots are in use.
#[verifier::external_body]
pub(crate) fn slab_insert(s: &mut Slab<FCGIRequest>, val: FCGIRequest) -> (key: usize)
    ensures
        !requests(*old(s)).dom().contains(key),
        requests(*final(s)) == requests(*old(s)).insert(key, val),
        key < slots(*old(s)) ==> slots(*final(s)) == slots(*old(s)),
        key >= slots(*old(s)) ==> key == slots(*old(s)) && slots(*final(s)) == slots(*old(s)) + 1
            && requests(*old(s)).dom().len() == slots(*old(s)),
{
    s.insert(val)
}

/// `Slab::get_mut` lends the request under `key`, if there is one.
#[verifier::external_body]
pub(crate) fn slab_get_mut(s: &mut Slab<FCGIRequest>, key: usize) -> (r: Option<
    &mut FCGIRequest,
>)
    ensures
        slots(*final(s)) == slots(*old(s)),
        match r {
            None => !requests(*old(s)).dom().contains(key) && *final(s) == *old(s),
            Some(m) => {
                &&& requests(*old(s)).dom().contains(key)
                &&& *m == requests(*old(s))[key]
                &&& requests(*final(s)) == requests(*old(s)).insert(key, *final(m))
            },
        },
{
    s.get_mut(key)
}

/// `Slab::remove` takes the request under `key` out and keeps its slot. It panics when there
/// is none.
#[verifier::external_body]
pub(crate) fn slab_remove(s: &mut Slab<FCGIRequest>, key: usize) -> (r: FCGIRequest)
    requires
        requests(*old(s)).dom().contains(key),
    ensures
        r == requests(*old(s))[key],
        requests(*final(s)) == requests(*old(s)).remove(key),
        slots(*final(s)) == slots(*old(s)),
{
    s.remove(key)
}

/// `Slab::iter` walks the requests by key, lowest first. Here are the keys.
#[verifier::external_body]
pub(crate) fn slab_keys(s: &Slab<FCGIRequest>) -> (r: Vec<usize>)
    ensures
        forall|i: int, j: int| 0 <= i < j < r@.len() ==> r@[i] < r@[j],
        forall|k: usize| r@.contains(k) <==> requests(*s).dom().contains(k),
{
    s.iter().map(|(key, _)| key).collect()
}

} // verus!
