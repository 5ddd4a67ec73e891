//! A queue of byte buffers that reads as one run of bytes.
use bytes::{Bytes, BytesMut};
use std::collections::VecDeque;
use vstd::prelude::*;

use crate::buffer::{advance, chunk, contents, put_slice, slice, written};

verus! {

/// Buffers in the order in which they were pushed.
pub struct BufList<T> {
    pub bufs: VecDeque<T>,
}

impl<T> BufList<T> {
    /// An empty list.
    pub fn new() -> (r: BufList<T>)
        ensures
            r.bufs@ == Seq::<T>::empty(),
    {
        BufList { bufs: VecDeque::new() }
    }

    /// Moves the buffers of `other` behind those of `self`.
    pub fn append(&mut self, other: BufList<T>)
        ensures
            final(self).bufs@ == old(self).bufs@ + other.bufs@,
    {
        let mut other = other;
        self.bufs.append(&mut other.bufs)
    }

    /// Takes the buffer that was pushed first.
    pub fn oldest(&mut self) -> (r: Option<T>)
        ensures
            match r {
                Some(b) => {
                    &&& old(self).bufs@.len() > 0
                    &&& b == old(self).bufs@[0]
                    &&& final(self).bufs@ == old(self).bufs@.skip(1)
                },
                None => old(self).bufs@.len() == 0 && final(self).bufs@ == old(self).bufs@,
            },
    {
        self.bufs.pop_front()
    }
}

impl BufList<Bytes> {
    /// What each buffer holds, oldest first.
    pub open spec fn chunks(self) -> Seq<Seq<u8>> {
        self.bufs@.map_values(|b: Bytes| contents(b))
    }

    /// The bytes of all buffers, one after the other.
    pub open spec fn bytes(self) -> Seq<u8> {
        self.chunks().flatten()
    }

    /// No buffer of the list is empty.
    pub open spec fn wf(self) -> bool {
        forall|i: int|
            0 <= i < self.bufs@.len() ==> contents(#[trigger] self.bufs@[i]).len() > 0
    }

    /// Appends a buffer that still has bytes.
    pub fn push(&mut self, buf: Bytes)
        requires
            contents(buf).len() > 0,
            old(self).wf(),
        ensures
            final(self).wf(),
            final(self).bufs@ == old(self).bufs@.push(buf),
            final(self).chunks() == old(self).chunks().push(contents(buf)),
            final(self).bytes() == old(self).bytes() + contents(buf),
    {
        self.bufs.push_back(buf);
        proof {
            assert(self.chunks() =~= old(self).chunks().push(contents(buf)));
            old(self).chunks().lemma_flatten_push(contents(buf));
            assert forall|i: int| 0 <= i < self.bufs@.len() implies contents(
                #[trigger] self.bufs@[i],
            ).len() > 0 by {
                if i < old(self).bufs@.len() {
                    assert(self.bufs@[i] == old(self).bufs@[i]);
                }
            }
        }
    }

    /// Puts a buffer that still has bytes before all others.
    pub fn push_front(&mut self, buf: Bytes)
        requires
            contents(buf).len() > 0,
            old(self).wf(),
        ensures
            final(self).wf(),
            final(self).bufs@ == seq![buf] + old(self).bufs@,
            final(self).chunks() == seq![contents(buf)] + old(self).chunks(),
            final(self).bytes() == contents(buf) + old(self).bytes(),
    {
        self.bufs.push_front(buf);
        proof {
            assert(self.bufs@ =~= seq![buf] + old(self).bufs@);
            assert(self.chunks() =~= seq![contents(buf)] + old(self).chunks());
            assert(self.chunks().drop_first() =~= old(self).chunks());
            assert forall|i: int| 0 <= i < self.bufs@.len() implies contents(
                #[trigger] self.bufs@[i],
            ).len() > 0 by {
                if i > 0 {
                    assert(self.bufs@[i] == old(self).bufs@[i - 1]);
                }
            }
            lemma_front(*self);
        }
    }

    /// The number of bytes in the list.
    pub fn remaining(&self) -> (n: usize)
        requires
            self.bytes().len() <= usize::MAX,
        ensures
            n == self.bytes().len(),
    {
        let mut n: usize = 0;
        let mut i: usize = 0;
        while i < self.bufs.len()
            invariant
                i <= self.bufs@.len(),
                n == self.chunks().take(i as int).flatten().len(),
                self.bytes().len() <= usize::MAX,
            decreases self.bufs@.len() - i,
        {
            proof {
                let all = self.chunks();
                assert(all.take(i + 1) =~= all.take(i as int).push(all[i as int]));
                all.take(i as int).lemma_flatten_push(all[i as int]);
                assert(all =~= all.take(i + 1) + all.skip(i + 1));
                vstd::seq_lib::lemma_flatten_concat(all.take(i + 1), all.skip(i + 1));
            }
            n += self.bufs[i].len();
            i += 1;
        }
        assert(self.chunks().take(i as int) =~= self.chunks());
        n
    }

    /// Whether there is a byte in the list.
    pub fn has_remaining(&self) -> (r: bool)
        requires
            self.wf(),
        ensures
            r == (self.bytes().len() > 0),
            r == (self.bufs@.len() > 0),
    {
        proof {
            if self.bufs@.len() > 0 {
                lemma_front(*self);
            }
        }
        self.bufs.len() > 0
    }

    /// The bytes of the oldest buffer, none if there is no buffer.
    pub fn chunk(&self) -> (r: &[u8])
        ensures
            r@ == if self.bufs@.len() > 0 {
                contents(self.bufs@[0])
            } else {
                Seq::<u8>::empty()
            },
    {
        if self.bufs.len() > 0 {
            chunk(&self.bufs[0])
        } else {
            let none: &[u8] = &[];
            assert(none@ =~= Seq::<u8>::empty());
            none
        }
    }

    /// Drops the first `cnt` bytes, or all of them if there are fewer.
    pub fn advance(&mut self, cnt: usize)
        requires
            old(self).wf(),
        ensures
            final(self).wf(),
            final(self).bytes() == if cnt <= old(self).bytes().len() {
                old(self).bytes().skip(cnt as int)
            } else {
                Seq::<u8>::empty()
            },
    {
        let mut left: usize = cnt;
        assert(self.bytes().skip(0) =~= self.bytes());
        while left > 0
            invariant
                self.wf(),
                left <= cnt,
                cnt <= old(self).bytes().len() ==> left <= self.bytes().len()
                    && old(self).bytes().skip(cnt as int) == self.bytes().skip(left as int),
                cnt > old(self).bytes().len() ==> left > self.bytes().len(),
            decreases left,
        {
            let ghost before = *self;
            match self.bufs.pop_front() {
                Some(front) => {
                    let mut front = front;
                    let ghost rest = self.bytes();
                    proof {
                        lemma_front(before);
                        assert(self.chunks() =~= before.chunks().drop_first());
                        assert forall|i: int| 0 <= i < self.bufs@.len() implies contents(
                            #[trigger] self.bufs@[i],
                        ).len() > 0 by {
                            assert(self.bufs@[i] == before.bufs@[i + 1]);
                        }
                    }
                    let rem: usize = front.len();
                    if rem > left {
                        advance(&mut front, left);
                        let ghost tail = *self;
                        self.bufs.push_front(front);
                        proof {
                            assert(self.chunks().drop_first() =~= tail.chunks());
                            lemma_front(*self);
                            assert(self.bytes() =~= before.bytes().skip(left as int));
                            assert forall|i: int| 0 <= i < self.bufs@.len() implies contents(
                                #[trigger] self.bufs@[i],
                            ).len() > 0 by {
                                if i > 0 {
                                    assert(self.bufs@[i] == tail.bufs@[i - 1]);
                                }
                            }
                        }
                        return ;
                    }
                    proof {
                        if left <= before.bytes().len() {
                            assert(before.bytes().skip(left as int) =~= rest.skip(left - rem));
                        }
                    }
                    left -= rem;
                },
                None => {
                    assert(self.bytes() =~= Seq::<u8>::empty());
                    return ;
                },
            }
        }
        assert(self.bytes().skip(0) =~= self.bytes());
    }

    /// Takes the first `len` bytes out of the list, as one buffer.
    pub fn copy_to_bytes(&mut self, len: usize) -> (r: Bytes)
        requires
            old(self).wf(),
            len <= old(self).bytes().len(),
            len <= isize::MAX,
        ensures
            final(self).wf(),
            contents(r) == old(self).bytes().take(len as int),
            final(self).bytes() == old(self).bytes().skip(len as int),
    {
        let mut ret = BytesMut::with_capacity(len);
        let mut left: usize = len;
        assert(self.bytes().take(0) =~= Seq::<u8>::empty());
        assert(self.bytes().skip(0) =~= self.bytes());
        while left > 0
            invariant
                self.wf(),
                left <= len <= old(self).bytes().len(),
                len <= isize::MAX,
                written(ret) == old(self).bytes().take(len - left),
                self.bytes() == old(self).bytes().skip(len - left),
            decreases left,
        {
            let ghost here = self.bytes();
            let ghost done = written(ret);
            proof {
                if self.bufs@.len() > 0 {
                    lemma_front(*self);
                } else {
                    assert(self.bytes() =~= Seq::<u8>::empty());
                }
            }
            let first = &self.bufs[0];
            let take = if first.len() < left {
                first.len()
            } else {
                left
            };
            let part = slice(first, 0, take);
            put_slice(&mut ret, chunk(&part));
            assert(contents(part) =~= here.take(take as int));
            self.advance(take);
            left -= take;
            assert(written(ret) =~= old(self).bytes().take(len - left));
            assert(self.bytes() =~= old(self).bytes().skip(len - left));
        }
        ret.freeze()
    }
}

/// The bytes of a list start with those of its oldest buffer.
pub proof fn lemma_front(l: BufList<Bytes>)
    requires
        l.bufs@.len() > 0,
    ensures
        l.bytes() == contents(l.bufs@[0]) + l.chunks().drop_first().flatten(),
        l.bytes().len() >= contents(l.bufs@[0]).len(),
{
    assert(l.chunks().first() == contents(l.bufs@[0]));
}

} // verus!
