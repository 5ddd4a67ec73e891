//! FCGI Application serving with more than one connection.
//!
//! This Module consists of the following Objects:
//!
//! * [`ConPool`]: supports FCGI_MAX_CONNS Connections
//! * [`Race`]: picks the connection that is ready first
use bytes::{Bytes, BytesMut};
use vstd::prelude::*;

use crate::buffer::{ascii, chunk, contents, is_text, put_slice, text, written};
use crate::client::connection::request::{HeaderMultilineStrategy, MultiHeaderStrategy};
use crate::codec::{stream_bytes, views, FCGIType, FCGIWriter};
use crate::fastcgi::params::{
    encode_pairs, read_pair, read_pairs, NVBody, NVDrain, NameValuePair,
};
use crate::fastcgi::reader::lemma_header_prefix;
use crate::fastcgi::record::{
    read_header, read_record, record_readable, BodyView, RecordView,
};
use crate::fastcgi::{Body, Header, Record, RecordType, MAX_CONNS, MAX_REQS, MPXS_CONNS};
use crate::number::{number_of, parse_int};

verus! {

// ---------------------------------------------------------------- the query

/// The variables that an application is asked for.
pub open spec fn query_pairs() -> Seq<(Seq<u8>, Seq<u8>)> {
    seq![
        (ascii(MAX_CONNS@), Seq::<u8>::empty()),
        (ascii(MAX_REQS@), Seq::<u8>::empty()),
        (ascii(MPXS_CONNS@), Seq::<u8>::empty()),
    ]
}

/// Asks the application for [`MAX_CONNS`], [`MAX_REQS`] and [`MPXS_CONNS`].
pub fn query_values<RW>(stream: &mut FCGIWriter<RW>)
    requires
        old(stream).wf(),
    ensures
        final(stream).wf(),
        final(stream).io == old(stream).io,
        final(stream).queued() == old(stream).queued() + stream_bytes(
            RecordType::GetValues,
            Record::MGMT_REQUEST_ID,
            encode_pairs(query_pairs()),
        ),
{
    let ghost before = stream.queued();
    proof {
        reveal_strlit("MAX_CONNS");
        reveal_strlit("MAX_REQS");
        reveal_strlit("MPXS_CONNS");
    }
    let mut pairs: Vec<NameValuePair> = Vec::new();
    pairs.push(NameValuePair::new(text(MAX_CONNS), Bytes::new()));
    pairs.push(NameValuePair::new(text(MAX_REQS), Bytes::new()));
    pairs.push(NameValuePair::new(text(MPXS_CONNS), Bytes::new()));
    assert(views(pairs@) =~= query_pairs());
    stream.encode(FCGIType::GetValues { p: pairs });
}

// ---------------------------------------------------------------- the answer

/// The records at the start of `s`, as many as there are whole.
pub open spec fn read_records(s: Seq<u8>) -> Seq<RecordView>
    decreases s.len(),
{
    match read_record(s) {
        Some((r, n)) => if 0 < n <= s.len() {
            seq![r] + read_records(s.skip(n))
        } else {
            Seq::empty()
        },
        None => Seq::empty(),
    }
}

/// What follows them.
pub open spec fn after_records(s: Seq<u8>) -> Seq<u8>
    decreases s.len(),
{
    match read_record(s) {
        Some((r, n)) => if 0 < n <= s.len() {
            after_records(s.skip(n))
        } else {
            s
        },
        None => s,
    }
}

/// Whether reading them makes sense.
pub open spec fn records_readable(s: Seq<u8>) -> bool
    decreases s.len(),
{
    &&& record_readable(s)
    &&& read_record(s) matches Some((r, n)) ==> 0 < n <= s.len() && records_readable(s.skip(n))
}

/// What records hold.
pub open spec fn record_views(rs: Seq<Record>) -> Seq<RecordView> {
    rs.map_values(|r: Record| r@)
}

/// Whether all records are well formed.
pub open spec fn records_wf(rs: Seq<Record>) -> bool {
    forall|i: int| 0 <= i < rs.len() ==> (#[trigger] rs[i]).wf()
}

/// The answer of an application to a query, as far as it has arrived.
///
/// Note: only use this if there are no requests pending
pub struct Answer {
    pub recs: Vec<Record>,
    pub rest: Bytes,
}

impl Answer {
    pub open spec fn wf(self) -> bool {
        records_wf(self.recs@)
    }

    pub fn new() -> (r: Answer)
        ensures
            r.wf(),
            r.recs@.len() == 0,
            contents(r.rest).len() == 0,
    {
        Answer { recs: Vec::new(), rest: Bytes::new() }
    }

    /// Puts what was read behind what is left of what was read before.
    fn joined(&self, data: &[u8]) -> (r: Bytes)
        requires
            contents(self.rest).len() + data@.len() <= isize::MAX,
        ensures
            contents(r) == contents(self.rest) + data@,
    {
        let mut rbuf = BytesMut::with_capacity(self.rest.len() + data.len());
        put_slice(&mut rbuf, chunk(&self.rest));
        put_slice(&mut rbuf, data);
        assert(written(rbuf) =~= contents(self.rest) + data@);
        rbuf.freeze()
    }

    /// Whether `data` can be read.
    pub fn can_read(&self, data: &[u8]) -> (r: bool)
        requires
            contents(self.rest).len() + data@.len() <= isize::MAX,
        ensures
            r == records_readable(contents(self.rest) + data@),
    {
        let mut pbuf = self.joined(data);
        loop
            invariant
                records_readable(contents(self.rest) + data@) == records_readable(
                    contents(pbuf),
                ),
            decreases contents(pbuf).len(),
        {
            if !Record::is_readable(&pbuf) {
                return false;
            }
            if Record::read(&mut pbuf).is_none() {
                return true;
            }
        }
    }

    /// Goes on with bytes that were read. The answer is complete when it ends with a record:
    /// then `true` is returned.
    pub fn on_data(&mut self, data: &[u8]) -> (done: bool)
        requires
            old(self).wf(),
            contents(old(self).rest).len() + data@.len() <= isize::MAX,
            records_readable(contents(old(self).rest) + data@),
        ensures
            final(self).wf(),
            ({
                let all = contents(old(self).rest) + data@;
                &&& record_views(final(self).recs@) == record_views(old(self).recs@)
                    + read_records(all)
                &&& contents(final(self).rest) == after_records(all)
                &&& done == (after_records(all).len() == 0)
            }),
    {
        let mut pbuf = self.joined(data);
        let ghost all = contents(pbuf);
        let ghost before = record_views(self.recs@);
        assert(before + read_records(all) =~= record_views(self.recs@) + read_records(
            contents(pbuf),
        ));
        loop
            invariant
                self.wf(),
                records_readable(contents(pbuf)),
                before + read_records(all) == record_views(self.recs@) + read_records(
                    contents(pbuf),
                ),
                after_records(all) == after_records(contents(pbuf)),
            ensures
                self.wf(),
                record_views(self.recs@) == before + read_records(all),
                contents(pbuf) == after_records(all),
            decreases contents(pbuf).len(),
        {
            let ghost s = contents(pbuf);
            let ghost so_far = record_views(self.recs@);
            match Record::read(&mut pbuf) {
                Some(r) => {
                    let ghost view = r@;
                    self.recs.push(r);
                    proof {
                        assert(record_views(self.recs@) =~= so_far.push(view));
                        assert(so_far + (seq![view] + read_records(contents(pbuf)))
                            =~= record_views(self.recs@) + read_records(contents(pbuf)));
                    }
                },
                None => {
                    assert(so_far + read_records(s) =~= so_far);
                    break ;
                },
            }
        }
        let done = pbuf.len() == 0;
        self.rest = pbuf;
        done
    }
}

/// The answer does not depend on how its bytes were cut into pieces: reading `a` and then `b`
/// behind what was left of `a` gives the records of `a + b`.
pub proof fn law_answer_in_pieces(a: Seq<u8>, b: Seq<u8>)
    ensures
        read_records(a + b) == read_records(a) + read_records(after_records(a) + b),
        after_records(a + b) == after_records(after_records(a) + b),
    decreases a.len(),
{
    match read_record(a) {
        Some((r, n)) => {
            lemma_record_prefix(a, b);
            assert((a + b).skip(n) =~= a.skip(n) + b);
            law_answer_in_pieces(a.skip(n), b);
            let more = read_records(a.skip(n));
            let last = read_records(after_records(a) + b);
            assert(seq![r] + (more + last) =~= seq![r] + more + last);
        },
        None => {
            assert(read_records(a) + read_records(a + b) =~= read_records(a + b));
        },
    }
}

/// A whole record at the start does not depend on what follows it.
proof fn lemma_record_prefix(a: Seq<u8>, b: Seq<u8>)
    requires
        read_record(a) is Some,
    ensures
        read_record(a + b) == read_record(a),
        read_record(a) matches Some((r, n)) && 0 < n <= a.len(),
{
    lemma_header_prefix(a, b);
    let h = read_header(a)->0;
    let end = Header::HEADER_LEN + h.content_length;
    assert((a + b).subrange(Header::HEADER_LEN as int, end) =~= a.subrange(
        Header::HEADER_LEN as int,
        end,
    ));
}

// ---------------------------------------------------------------- the settings

/// How many connections an application takes, and how many requests on each.
#[derive(Debug, Clone, Copy, PartialEq, Eq, Structural)]
pub struct Limits {
    pub max_cons: u8,
    pub max_req_per_con: u16,
}

/// Whether a pair says that there is no multiplexing.
pub open spec fn no_multiplexing(pair: (Seq<u8>, Seq<u8>)) -> bool {
    pair.0 == ascii(MPXS_CONNS@) && pair.1 == ascii("0"@)
}

/// Whether one of the pairs says that there is no multiplexing.
pub open spec fn denied(pairs: Seq<(Seq<u8>, Seq<u8>)>) -> bool {
    exists|i: int| 0 <= i < pairs.len() && no_multiplexing(#[trigger] pairs[i])
}

/// The number that the pairs give for `name`, one if they give none. Values that are no
/// numbers, or bigger than `max`, do not count; of the others the last one does.
pub open spec fn last_number(pairs: Seq<(Seq<u8>, Seq<u8>)>, name: Seq<u8>, max: nat) -> nat
    decreases pairs.len(),
{
    if pairs.len() == 0 {
        1
    } else if pairs.last().0 == name && number_of(pairs.last().1, max) is Some {
        number_of(pairs.last().1, max)->0
    } else {
        last_number(pairs.drop_last(), name, max)
    }
}

/// The limits that the pairs of an answer name.
pub open spec fn limits_of(pairs: Seq<(Seq<u8>, Seq<u8>)>) -> Limits {
    Limits {
        max_cons: last_number(pairs, ascii(MAX_CONNS@), 255) as u8,
        max_req_per_con: if denied(pairs) {
            1
        } else {
            last_number(pairs, ascii(MAX_REQS@), 65535) as u16
        },
    }
}

/// The pairs that a record of an answer holds.
pub open spec fn pairs_in(r: RecordView) -> Option<Seq<(Seq<u8>, Seq<u8>)>> {
    match r.body {
        BodyView::GetValuesResult(data) => read_pairs(data),
        _ => Some(Seq::empty()),
    }
}

/// The pairs of all records of an answer.
pub open spec fn answer_pairs(rs: Seq<RecordView>) -> Seq<(Seq<u8>, Seq<u8>)>
    decreases rs.len(),
{
    if rs.len() == 0 {
        Seq::empty()
    } else {
        pairs_in(rs[0])->0 + answer_pairs(rs.drop_first())
    }
}

/// Whether all records of an answer can be read.
pub open spec fn answer_readable(rs: Seq<RecordView>) -> bool {
    forall|i: int| 0 <= i < rs.len() ==> pairs_in(#[trigger] rs[i]) is Some
}

/// The limits that an application names in its answer.
pub open spec fn limits_from(rs: Seq<RecordView>) -> Limits {
    limits_of(answer_pairs(rs))
}

/// An application that says anywhere in its answer that it does not multiplex gets one request
/// on a connection, whatever else the answer says before or after.
pub proof fn law_no_multiplexing(rs: Seq<RecordView>, j: int, i: int)
    requires
        answer_readable(rs),
        0 <= j < rs.len(),
        0 <= i < pairs_in(rs[j])->0.len(),
        no_multiplexing(pairs_in(rs[j])->0[i]),
    ensures
        limits_from(rs).max_req_per_con == 1,
{
    lemma_pair_in_answer(rs, j, i);
}

/// What a record says is part of the answer.
proof fn lemma_pair_in_answer(rs: Seq<RecordView>, j: int, i: int)
    requires
        0 <= j < rs.len(),
        0 <= i < pairs_in(rs[j])->0.len(),
    ensures
        answer_pairs(rs).contains(pairs_in(rs[j])->0[i]),
    decreases rs.len(),
{
    let first = pairs_in(rs[0])->0;
    let more = answer_pairs(rs.drop_first());
    if j == 0 {
        assert((first + more)[i] == first[i]);
    } else {
        let pair = pairs_in(rs.drop_first()[j - 1])->0[i];
        lemma_pair_in_answer(rs.drop_first(), j - 1, i);
        let k = choose|k: int| 0 <= k < more.len() && more[k] == pair;
        assert((first + more)[first.len() + k] == pair);
    }
}

/// The last number that an answer gives for a variable counts, whatever follows it under other
/// names or without a number, and whatever came before.
pub proof fn law_last_number_counts(
    before: Seq<(Seq<u8>, Seq<u8>)>,
    pair: (Seq<u8>, Seq<u8>),
    after: Seq<(Seq<u8>, Seq<u8>)>,
    max: nat,
)
    requires
        number_of(pair.1, max) is Some,
        forall|i: int|
            0 <= i < after.len() ==> (#[trigger] after[i]).0 != pair.0 || number_of(
                after[i].1,
                max,
            ) is None,
    ensures
        last_number(before.push(pair) + after, pair.0, max) == number_of(pair.1, max)->0,
    decreases after.len(),
{
    let all = before.push(pair) + after;
    if after.len() == 0 {
        assert(all =~= before.push(pair));
    } else {
        assert(all.last() == after[after.len() - 1]);
        assert(all.drop_last() =~= before.push(pair) + after.drop_last());
        law_last_number_counts(before, pair, after.drop_last(), max);
    }
}

/// The three variables have different names.
proof fn lemma_names_differ()
    ensures
        ascii(MAX_CONNS@) != ascii(MPXS_CONNS@),
        ascii(MAX_REQS@) != ascii(MPXS_CONNS@),
        ascii(MAX_CONNS@) != ascii(MAX_REQS@),
{
    reveal_strlit("MAX_CONNS");
    reveal_strlit("MAX_REQS");
    reveal_strlit("MPXS_CONNS");
    assert(ascii(MAX_CONNS@).len() == 9);
    assert(ascii(MAX_REQS@).len() == 8);
    assert(ascii(MPXS_CONNS@).len() == 10);
}

proof fn lemma_pair_width(data: Seq<u8>)
    ensures
        read_pair(data) matches Some((name, value, n)) ==> 2 <= n <= data.len(),
{
}

/// What an answer has said so far.
struct Settings {
    max_cons: u8,
    max_reqs: u16,
    /// Whether it was said that there is no multiplexing.
    denied: bool,
}

impl Settings {
    /// Whether this is what `pairs` say.
    spec fn after(self, pairs: Seq<(Seq<u8>, Seq<u8>)>) -> bool {
        &&& self.max_cons == last_number(pairs, ascii(MAX_CONNS@), 255)
        &&& self.max_reqs == last_number(pairs, ascii(MAX_REQS@), 65535)
        &&& self.denied == denied(pairs)
    }

    /// Takes in a pair.
    fn take_pair(&mut self, kv: &NameValuePair, Ghost(pairs): Ghost<Seq<(Seq<u8>, Seq<u8>)>>)
        requires
            old(self).after(pairs),
        ensures
            final(self).after(pairs.push(kv@)),
    {
        proof {
            reveal_strlit("MAX_CONNS");
            reveal_strlit("MAX_REQS");
            reveal_strlit("MPXS_CONNS");
            reveal_strlit("0");
            lemma_names_differ();
            let all = pairs.push(kv@);
            assert(all.drop_last() =~= pairs);
            assert(denied(all) == (denied(pairs) || no_multiplexing(kv@))) by {
                if denied(pairs) {
                    let i = choose|i: int|
                        0 <= i < pairs.len() && no_multiplexing(#[trigger] pairs[i]);
                    assert(no_multiplexing(all[i]));
                }
                if no_multiplexing(kv@) {
                    assert(no_multiplexing(all[all.len() - 1]));
                }
                if denied(all) && !no_multiplexing(kv@) {
                    let i = choose|i: int|
                        0 <= i < all.len() && no_multiplexing(#[trigger] all[i]);
                    assert(no_multiplexing(pairs[i]));
                }
            }
        }
        let name = chunk(&kv.name_data);
        let value = chunk(&kv.value_data);
        if is_text(name, MAX_CONNS) {
            if let Some(v) = parse_int(value, 255) {
                self.max_cons = v as u8;
            }
        } else if is_text(name, MAX_REQS) {
            if let Some(v) = parse_int(value, 65535) {
                self.max_reqs = v;
            }
        } else if is_text(name, MPXS_CONNS) {
            if is_text(value, "0") {
                self.denied = true;
            }
        }
    }

    /// Takes in the pairs of a record.
    fn take_pairs(&mut self, kvs: NVBody, Ghost(pairs): Ghost<Seq<(Seq<u8>, Seq<u8>)>>)
        requires
            kvs.wf(),
            read_pairs(kvs.data()) is Some,
            old(self).after(pairs),
        ensures
            final(self).after(pairs + read_pairs(kvs.data())->0),
    {
        let mut kvs = kvs.drain();
        let ghost all = pairs + read_pairs(contents(kvs.0))->0;
        let ghost mut so_far = pairs;
        loop
            invariant_except_break
                read_pairs(contents(kvs.0)) is Some,
                all == so_far + read_pairs(contents(kvs.0))->0,
                self.after(so_far),
            ensures
                self.after(all),
            decreases contents(kvs.0).len(),
        {
            proof {
                lemma_pair_width(contents(kvs.0));
            }
            let ghost left = read_pairs(contents(kvs.0))->0;
            match kvs.next() {
                Some(kv) => {
                    self.take_pair(&kv, Ghost(so_far));
                    proof {
                        let more = read_pairs(contents(kvs.0))->0;
                        assert(so_far + (seq![kv@] + more) =~= so_far.push(kv@) + more);
                        so_far = so_far.push(kv@);
                    }
                },
                None => {
                    assert(so_far + left =~= so_far);
                    break ;
                },
            }
        }
    }
}

impl Limits {
    /// The limits that an application names in its answer. It gets one connection with one
    /// request where it says nothing.
    pub fn from_answer(recs: Vec<Record>) -> (r: Limits)
        requires
            records_wf(recs@),
            answer_readable(record_views(recs@)),
        ensures
            r == limits_from(record_views(recs@)),
    {
        let mut said = Settings { max_cons: 1, max_reqs: 1, denied: false };
        let ghost all = answer_pairs(record_views(recs@));
        let ghost mut so_far = Seq::<(Seq<u8>, Seq<u8>)>::empty();
        assert(so_far + all =~= all);
        let mut recs = recs;
        while recs.len() > 0
            invariant
                records_wf(recs@),
                answer_readable(record_views(recs@)),
                all == so_far + answer_pairs(record_views(recs@)),
                said.after(so_far),
            decreases recs@.len(),
        {
            let ghost here = record_views(recs@);
            let ghost before = recs@;
            assert(before[0].wf());
            let rec = recs.remove(0);
            let ghost pairs = pairs_in(rec@)->0;
            proof {
                assert(record_views(recs@) =~= here.drop_first());
                assert(here[0] == rec@);
                assert forall|i: int| 0 <= i < recs@.len() implies (#[trigger] recs@[i]).wf() by {
                    assert(recs@[i] == before[i + 1]);
                }
                assert forall|i: int| 0 <= i < here.drop_first().len() implies pairs_in(
                    #[trigger] here.drop_first()[i],
                ) is Some by {
                    assert(here.drop_first()[i] == here[i + 1]);
                }
                let more = answer_pairs(here.drop_first());
                assert(so_far + (pairs + more) =~= so_far + pairs + more);
                assert(pairs.len() == 0 ==> so_far + pairs =~= so_far);
            }
            if let Body::GetValuesResult(kvs) = rec.body {
                said.take_pairs(kvs, Ghost(so_far));
            }
            proof {
                so_far = so_far + pairs;
            }
        }
        assert(so_far + answer_pairs(record_views(recs@)) =~= so_far);
        Limits {
            max_cons: said.max_cons,
            max_req_per_con: if said.denied {
                1
            } else {
                said.max_reqs
            },
        }
    }
}

impl NVBody {
    /// A copy of the bytes of this body.
    fn copied(&self) -> (r: Bytes)
        requires
            self.wf(),
        ensures
            contents(r) == self.data(),
    {
        let mut buf = BytesMut::with_capacity(self.len as usize);
        let ghost all = self.pairs.chunks();
        let mut i: usize = 0;
        assert(all.take(0) =~= Seq::empty());
        assert(written(buf) =~= all.take(0).flatten());
        while i < self.pairs.bufs.len()
            invariant
                i <= self.pairs.bufs@.len(),
                all == self.pairs.chunks(),
                self.wf(),
                written(buf) == all.take(i as int).flatten(),
            decreases self.pairs.bufs@.len() - i,
        {
            proof {
                assert(all.take(i + 1) =~= all.take(i as int).push(all[i as int]));
                all.take(i as int).lemma_flatten_push(all[i as int]);
                assert(all =~= all.take(i + 1) + all.skip(i + 1));
                vstd::seq_lib::lemma_flatten_concat(all.take(i + 1), all.skip(i + 1));
            }
            put_slice(&mut buf, chunk(&self.pairs.bufs[i]));
            i += 1;
        }
        assert(all.take(i as int) =~= all);
        buf.freeze()
    }
}

/// Whether the pairs of a record can be read.
fn pairs_are_readable(kvs: &NVBody) -> (r: bool)
    requires
        kvs.wf(),
    ensures
        r == (read_pairs(kvs.data()) is Some),
{
    let mut left = NVDrain(kvs.copied());
    loop
        invariant
            read_pairs(kvs.data()) is Some == (read_pairs(contents(left.0)) is Some),
        decreases contents(left.0).len(),
    {
        proof {
            lemma_pair_width(contents(left.0));
        }
        if left.0.len() > 0 && !left.has_pair() {
            return false;
        }
        if left.next().is_none() {
            return true;
        }
    }
}

/// Whether all records of an answer can be read.
pub fn can_read_answer(recs: &Vec<Record>) -> (r: bool)
    requires
        records_wf(recs@),
    ensures
        r == answer_readable(record_views(recs@)),
{
    let ghost all = record_views(recs@);
    let mut i: usize = 0;
    while i < recs.len()
        invariant
            i <= recs@.len(),
            records_wf(recs@),
            all == record_views(recs@),
            forall|j: int| 0 <= j < i ==> pairs_in(#[trigger] all[j]) is Some,
        decreases recs@.len() - i,
    {
        assert(recs@[i as int].wf());
        assert(all[i as int] == recs@[i as int]@);
        if let Body::GetValuesResult(kvs) = &recs[i].body {
            if !pairs_are_readable(kvs) {
                return false;
            }
        }
        i += 1;
    }
    true
}

/// manage a pool of connections to a Server.
pub struct ConPool {
    pub header_mul: MultiHeaderStrategy,
    pub header_nl: HeaderMultilineStrategy,
    /// The maximum number of concurrent transport connections this application will accept
    pub max_cons: u8,
    /// The maximum number of concurrent requests this application will accept
    pub max_req_per_con: u16,
}

impl ConPool {
    /// A pool with [`MultiHeaderStrategy::OnlyFirst`] & [`HeaderMultilineStrategy::Ignore`].
    /// See [`ConPool::new_with_strategy`]
    pub fn new(recs: Vec<Record>) -> (r: ConPool)
        requires
            records_wf(recs@),
            answer_readable(record_views(recs@)),
        ensures
            r.limits() == limits_from(record_views(recs@)),
            r.header_mul is OnlyFirst,
            r.header_nl is Ignore,
    {
        Self::new_with_strategy(
            recs,
            MultiHeaderStrategy::OnlyFirst,
            HeaderMultilineStrategy::Ignore,
        )
    }

    /// A pool for the application that gave the answer `recs` to a query for [`MAX_CONNS`],
    /// [`MAX_REQS`] and [`MPXS_CONNS`].
    pub fn new_with_strategy(
        recs: Vec<Record>,
        header_mul: MultiHeaderStrategy,
        header_nl: HeaderMultilineStrategy,
    ) -> (r: ConPool)
        requires
            records_wf(recs@),
            answer_readable(record_views(recs@)),
        ensures
            r.limits() == limits_from(record_views(recs@)),
            r.header_mul == header_mul,
            r.header_nl == header_nl,
    {
        let limits = Limits::from_answer(recs);
        ConPool {
            header_mul,
            header_nl,
            max_cons: limits.max_cons,
            max_req_per_con: limits.max_req_per_con,
        }
    }

    pub open spec fn limits(self) -> Limits {
        Limits { max_cons: self.max_cons, max_req_per_con: self.max_req_per_con }
    }

    /// Whether another connection may be opened besides the `open` ones.
    pub fn wants_connection(&self, open: usize) -> (r: bool)
        ensures
            r == (open < self.max_cons),
    {
        self.max_cons as usize > open
    }
}

// ---------------------------------------------------------------- picking a connection

/// What polling an attempt came to.
#[derive(Debug, Clone, Copy, PartialEq, Eq, Structural)]
pub enum Attempt {
    Ready,
    Failed,
    Pending,
}

/// Who won a race.
#[derive(Debug, Clone, Copy, PartialEq, Eq, Structural)]
pub enum Raced {
    /// The connection with this number is ready.
    Prep(usize),
    /// A new connection was made.
    New,
}

/// What to do next in a race.
#[derive(Debug, Clone, Copy, PartialEq, Eq, Structural)]
pub enum RaceStep {
    /// Poll the new connection.
    PollNew,
    /// Poll the open connection with this number.
    PollOpen(usize),
    /// All have been polled, and this is the last that failed: report its error.
    GiveUp(Raced),
    /// All have been polled: wait.
    Wait,
}

/// One round of a race between a new connection, if there is one, and the open ones.
#[derive(Debug, Clone, Copy, PartialEq, Eq, Structural)]
pub struct Race {
    /// Whether a new connection is to be polled first.
    pub nu_con: bool,
    /// The number of open connections.
    pub waiting: usize,
    /// The open connection that is to be polled next.
    pub next: usize,
    /// The last attempt that has failed.
    pub failed: Option<Raced>,
}

/// What a race comes to.
pub enum RaceResult {
    Won(Raced),
    /// None is ready, and this is the last that failed.
    Failed(Raced),
    Pending,
}

/// What a race comes to when the open connections from `from` on answer as `open` says, and
/// `failed` is the last that failed before.
pub open spec fn open_race(open: Seq<Attempt>, from: int, failed: Option<Raced>) -> RaceResult
    decreases open.len() - from,
{
    if from >= open.len() {
        match failed {
            Some(who) => RaceResult::Failed(who),
            None => RaceResult::Pending,
        }
    } else if open[from] == Attempt::Ready {
        RaceResult::Won(Raced::Prep(from as usize))
    } else {
        open_race(
            open,
            from + 1,
            if open[from] == Attempt::Failed {
                Some(Raced::Prep(from as usize))
            } else {
                failed
            },
        )
    }
}

/// The failure of a new connection, if it failed.
pub open spec fn new_failed(a: Attempt) -> Option<Raced> {
    if a == Attempt::Failed {
        Some(Raced::New)
    } else {
        None
    }
}

/// What a race comes to: the first that is ready wins, the new connection before the open
/// ones; if none is, the last error decides, and else it goes on.
pub open spec fn race(nu_con: Option<Attempt>, open: Seq<Attempt>) -> RaceResult {
    match nu_con {
        Some(Attempt::Ready) => RaceResult::Won(Raced::New),
        Some(a) => open_race(open, 0, new_failed(a)),
        None => open_race(open, 0, None),
    }
}

impl Race {
    pub open spec fn wf(self) -> bool {
        self.next <= self.waiting
    }

    /// What the race comes to from here on.
    pub open spec fn outcome(self, nu_con: Attempt, open: Seq<Attempt>) -> RaceResult {
        if self.nu_con && nu_con == Attempt::Ready {
            RaceResult::Won(Raced::New)
        } else {
            open_race(
                open,
                self.next as int,
                if self.nu_con && nu_con == Attempt::Failed {
                    Some(Raced::New)
                } else {
                    self.failed
                },
            )
        }
    }

    /// Starts a round.
    pub fn new(nu_con: bool, waiting: usize) -> (r: Race)
        ensures
            r.wf(),
            r.waiting == waiting,
            forall|a: Attempt, open: Seq<Attempt>| #[trigger]
                r.outcome(a, open) == race(
                    if nu_con {
                        Some(a)
                    } else {
                        None
                    },
                    open,
                ),
    {
        Race { nu_con, waiting, next: 0, failed: None }
    }

    /// What to do next. Whoever is to be polled is the next to be told about.
    pub fn step(&self) -> (r: RaceStep)
        requires
            self.wf(),
        ensures
            match r {
                RaceStep::PollNew => self.nu_con,
                RaceStep::PollOpen(i) => !self.nu_con && i == self.next && i < self.waiting,
                _ => !self.nu_con && self.next == self.waiting,
            },
            forall|a: Attempt, open: Seq<Attempt>|
                open.len() == self.waiting ==> match r {
                    RaceStep::GiveUp(who) => #[trigger] self.outcome(a, open)
                        == RaceResult::Failed(who),
                    RaceStep::Wait => self.outcome(a, open) is Pending,
                    _ => true,
                },
    {
        if self.nu_con {
            RaceStep::PollNew
        } else if self.next < self.waiting {
            RaceStep::PollOpen(self.next)
        } else {
            match self.failed {
                Some(who) => RaceStep::GiveUp(who),
                None => RaceStep::Wait,
            }
        }
    }

    /// Takes in what polling came to. The winner is returned, if this decides the race.
    pub fn polled(&mut self, attempt: Attempt) -> (r: Option<Raced>)
        requires
            old(self).wf(),
            old(self).nu_con || old(self).next < old(self).waiting,
        ensures
            final(self).wf(),
            final(self).waiting == old(self).waiting,
            forall|a: Attempt, open: Seq<Attempt>|
                ({
                    &&& open.len() == old(self).waiting
                    &&& old(self).nu_con ==> a == attempt
                    &&& !old(self).nu_con ==> open[old(self).next as int] == attempt
                }) ==> #[trigger] old(self).outcome(a, open) == match r {
                    Some(w) => RaceResult::Won(w),
                    None => final(self).outcome(a, open),
                },
            r is None ==> final(self).rounds() < old(self).rounds(),
    {
        let who = if self.nu_con {
            Raced::New
        } else {
            Raced::Prep(self.next)
        };
        match attempt {
            Attempt::Ready => {
                return Some(who);
            },
            Attempt::Failed => {
                self.failed = Some(who);
            },
            Attempt::Pending => {},
        }
        if self.nu_con {
            self.nu_con = false;
        } else {
            self.next += 1;
        }
        None
    }

    /// How many are left to be polled.
    pub open spec fn rounds(self) -> int {
        self.waiting - self.next + if self.nu_con {
            1int
        } else {
            0
        }
    }
}

/// The first that is ready wins, and the new connection comes before the open ones. Without a
/// winner the last failure decides, and only where all are pending the race goes on.
pub proof fn law_first_ready_wins(nu_con: Option<Attempt>, open: Seq<Attempt>, i: int)
    requires
        0 <= i < open.len() <= usize::MAX,
    ensures
        nu_con == Some(Attempt::Ready) ==> race(nu_con, open) == RaceResult::Won(Raced::New),
        nu_con != Some(Attempt::Ready) && open[i] == Attempt::Ready && (forall|j: int|
            0 <= j < i ==> open[j] != Attempt::Ready) ==> race(nu_con, open) == RaceResult::Won(
            Raced::Prep(i as usize),
        ),
        race(nu_con, open) is Pending ==> nu_con != Some(Attempt::Failed) && open[i]
            == Attempt::Pending,
        race(nu_con, open) is Failed ==> nu_con != Some(Attempt::Ready) && open[i]
            != Attempt::Ready,
        nu_con != Some(Attempt::Ready) && open[i] == Attempt::Failed && (forall|j: int|
            0 <= j < open.len() ==> open[j] != Attempt::Ready) && (forall|j: int|
            i < j < open.len() ==> open[j] == Attempt::Pending) ==> race(nu_con, open)
            == RaceResult::Failed(Raced::Prep(i as usize)),
        nu_con == Some(Attempt::Failed) && (forall|j: int|
            0 <= j < open.len() ==> open[j] == Attempt::Pending) ==> race(nu_con, open)
            == RaceResult::Failed(Raced::New),
{
    let failed = match nu_con {
        Some(a) => new_failed(a),
        None => None,
    };
    lemma_open_race(open, 0, failed, i);
}

proof fn lemma_open_race(open: Seq<Attempt>, from: int, failed: Option<Raced>, i: int)
    requires
        0 <= from,
        0 <= i < open.len(),
    ensures
        from <= i && open[i] == Attempt::Ready && (forall|j: int|
            from <= j < i ==> open[j] != Attempt::Ready) ==> open_race(open, from, failed)
            == RaceResult::Won(Raced::Prep(i as usize)),
        open_race(open, from, failed) is Pending ==> failed is None && (from <= i ==> open[i]
            == Attempt::Pending),
        open_race(open, from, failed) is Failed ==> (from <= i ==> open[i] != Attempt::Ready),
        (forall|j: int| from <= j < open.len() ==> open[j] == Attempt::Pending) ==> open_race(
            open,
            from,
            failed,
        ) == match failed {
            Some(who) => RaceResult::Failed(who),
            None => RaceResult::Pending,
        },
        from <= i && open[i] == Attempt::Failed && (forall|j: int|
            from <= j < open.len() ==> open[j] != Attempt::Ready) && (forall|j: int|
            i < j < open.len() ==> open[j] == Attempt::Pending) ==> open_race(open, from, failed)
            == RaceResult::Failed(Raced::Prep(i as usize)),
    decreases open.len() - from,
{
    if from < open.len() && open[from] != Attempt::Ready {
        let next = if open[from] == Attempt::Failed {
            Some(Raced::Prep(from as usize))
        } else {
            failed
        };
        lemma_open_race(open, from + 1, next, i);
    }
}

// ---------------------------------------------------------------- what counts in an answer

/// An application is asked for three variables, each with an empty value.
pub proof fn law_query()
    ensures
        query_pairs().len() == 3,
        query_pairs()[0] == (ascii("MAX_CONNS"@), Seq::<u8>::empty()),
        query_pairs()[1] == (ascii("MAX_REQS"@), Seq::<u8>::empty()),
        query_pairs()[2] == (ascii("MPXS_CONNS"@), Seq::<u8>::empty()),
{
}

/// The pairs of an answer are those of its records that hold values, one record after the
/// other. Other records say nothing.
pub proof fn law_answer_pairs(r: RecordView, more: Seq<RecordView>)
    ensures
        answer_pairs(Seq::empty()) == Seq::<(Seq<u8>, Seq<u8>)>::empty(),
        r.body matches BodyView::GetValuesResult(data) ==> (read_pairs(data) matches Some(pairs)
            ==> answer_pairs(seq![r] + more) == pairs + answer_pairs(more)),
        r.body !is GetValuesResult ==> answer_pairs(seq![r] + more) == answer_pairs(more),
        answer_readable(seq![r] + more) <==> answer_readable(more) && (
        r.body matches BodyView::GetValuesResult(data) ==> read_pairs(data) is Some),
        answer_readable(Seq::empty()),
{
    let all = seq![r] + more;
    assert(all.drop_first() =~= more);
    assert(all[0] == r);
    if r.body !is GetValuesResult {
        assert(Seq::<(Seq<u8>, Seq<u8>)>::empty() + answer_pairs(more) =~= answer_pairs(more));
    }
    if answer_readable(all) {
        assert(pairs_in(all[0]) is Some);
        assert forall|i: int| 0 <= i < more.len() implies pairs_in(#[trigger] more[i]) is Some by {
            assert(more[i] == all[i + 1]);
        }
    }
    if answer_readable(more) {
        assert forall|i: int| 1 <= i < all.len() implies pairs_in(#[trigger] all[i]) is Some by {
            assert(all[i] == more[i - 1]);
        }
    }
}

/// Unless the answer denies multiplexing, a connection takes as many requests as the last pair
/// named MAX_REQS says that has a number up to 65535, whatever the other pairs say.
pub proof fn law_max_reqs_counts(rs: Seq<RecordView>, k: int, n: nat)
    requires
        ({
            let pairs = answer_pairs(rs);
            &&& 0 <= k < pairs.len()
            &&& pairs[k].0 == ascii("MAX_REQS"@)
            &&& number_of(pairs[k].1, 65535) == Some(n)
            &&& forall|j: int|
                k < j < pairs.len() ==> (#[trigger] pairs[j]).0 != ascii("MAX_REQS"@) || number_of(
                    pairs[j].1,
                    65535,
                ) is None
            &&& forall|j: int|
                0 <= j < pairs.len() ==> (#[trigger] pairs[j]).0 != ascii("MPXS_CONNS"@)
                    || pairs[j].1 != ascii("0"@)
        }),
    ensures
        limits_from(rs).max_req_per_con == n,
{
    let pairs = answer_pairs(rs);
    lemma_split(pairs, k, 65535);
    assert(!denied(pairs));
}

/// An application takes as many connections as the last pair named MAX_CONNS says that has a
/// number up to 255, whatever the other pairs say.
pub proof fn law_max_conns_counts(rs: Seq<RecordView>, k: int, n: nat)
    requires
        ({
            let pairs = answer_pairs(rs);
            &&& 0 <= k < pairs.len()
            &&& pairs[k].0 == ascii("MAX_CONNS"@)
            &&& number_of(pairs[k].1, 255) == Some(n)
            &&& forall|j: int|
                k < j < pairs.len() ==> (#[trigger] pairs[j]).0 != ascii("MAX_CONNS"@) || number_of(
                    pairs[j].1,
                    255,
                ) is None
        }),
    ensures
        limits_from(rs).max_cons == n,
{
    lemma_split(answer_pairs(rs), k, 255);
}

proof fn lemma_split(pairs: Seq<(Seq<u8>, Seq<u8>)>, k: int, max: nat)
    requires
        0 <= k < pairs.len(),
        number_of(pairs[k].1, max) is Some,
        forall|j: int|
            k < j < pairs.len() ==> (#[trigger] pairs[j]).0 != pairs[k].0 || number_of(
                pairs[j].1,
                max,
            ) is None,
    ensures
        last_number(pairs, pairs[k].0, max) == number_of(pairs[k].1, max)->0,
        number_of(pairs[k].1, max)->0 <= max,
{
    let before = pairs.take(k);
    let after = pairs.skip(k + 1);
    assert(before.push(pairs[k]) + after =~= pairs);
    assert forall|i: int| 0 <= i < after.len() implies (#[trigger] after[i]).0 != pairs[k].0
        || number_of(after[i].1, max) is None by {
        assert(after[i] == pairs[k + 1 + i]);
    }
    law_last_number_counts(before, pairs[k], after, max);
}

/// Where an answer gives no number for a variable, it counts as one.
pub proof fn law_one_without_number(rs: Seq<RecordView>)
    ensures
        (forall|j: int|
            0 <= j < answer_pairs(rs).len() ==> (#[trigger] answer_pairs(rs)[j]).0 != ascii(
                "MAX_CONNS"@,
            ) || number_of(answer_pairs(rs)[j].1, 255) is None) ==> limits_from(rs).max_cons == 1,
        (forall|j: int|
            0 <= j < answer_pairs(rs).len() ==> (#[trigger] answer_pairs(rs)[j]).0 != ascii(
                "MAX_REQS"@,
            ) || number_of(answer_pairs(rs)[j].1, 65535) is None) ==> limits_from(
            rs,
        ).max_req_per_con == 1,
{
    let pairs = answer_pairs(rs);
    lemma_no_number(pairs, ascii("MAX_CONNS"@), 255);
    lemma_no_number(pairs, ascii("MAX_REQS"@), 65535);
}

proof fn lemma_no_number(pairs: Seq<(Seq<u8>, Seq<u8>)>, name: Seq<u8>, max: nat)
    ensures
        (forall|j: int|
            0 <= j < pairs.len() ==> (#[trigger] pairs[j]).0 != name || number_of(
                pairs[j].1,
                max,
            ) is None) ==> last_number(pairs, name, max) == 1,
    decreases pairs.len(),
{
    if pairs.len() > 0 {
        let init = pairs.drop_last();
        lemma_no_number(init, name, max);
        if forall|j: int|
            0 <= j < pairs.len() ==> (#[trigger] pairs[j]).0 != name || number_of(
                pairs[j].1,
                max,
            ) is None {
            assert(pairs[pairs.len() - 1].0 != name || number_of(
                pairs[pairs.len() - 1].1,
                max,
            ) is None);
            assert forall|j: int| 0 <= j < init.len() implies (#[trigger] init[j]).0 != name
                || number_of(init[j].1, max) is None by {
                assert(init[j] == pairs[j]);
            }
        }
    }
}

/// An answer that denies multiplexing anywhere allows one request on a connection.
pub proof fn law_denied_is_one(rs: Seq<RecordView>, k: int)
    requires
        0 <= k < answer_pairs(rs).len(),
        answer_pairs(rs)[k].0 == ascii("MPXS_CONNS"@),
        answer_pairs(rs)[k].1 == ascii("0"@),
    ensures
        limits_from(rs).max_req_per_con == 1,
{
    assert(no_multiplexing(answer_pairs(rs)[k]));
}

/// The records of an answer are read one after the other, as many as there are whole.
pub proof fn law_records_read(s: Seq<u8>)
    ensures
        read_record(s) is None ==> read_records(s).len() == 0 && after_records(s) == s,
        read_record(s) matches Some((r, n)) ==> {
            &&& read_records(s) == seq![r] + read_records(s.skip(n))
            &&& after_records(s) == after_records(s.skip(n))
        },
        records_readable(s) <==> record_readable(s) && (read_record(s) matches Some((r, n))
            ==> records_readable(s.skip(n))),
{
    if read_record(s) is Some {
        lemma_record_prefix(s, Seq::empty());
    }
}

// ---------------------------------------------------------------- who wins a race

/// A race is won by the new connection if it is ready, else by the first open one that is; it
/// is lost if none is ready and one failed, and the last one that failed is to blame; and it
/// goes on if and only if all are pending.
pub proof fn law_race(nu_con: Option<Attempt>, open: Seq<Attempt>)
    requires
        open.len() <= usize::MAX,
    ensures
        match race(nu_con, open) {
            RaceResult::Won(Raced::New) => nu_con == Some(Attempt::Ready),
            RaceResult::Won(Raced::Prep(i)) => {
                &&& nu_con != Some(Attempt::Ready)
                &&& i < open.len()
                &&& open[i as int] == Attempt::Ready
                &&& forall|j: int| 0 <= j < i ==> #[trigger] open[j] != Attempt::Ready
            },
            RaceResult::Failed(who) => {
                &&& nu_con != Some(Attempt::Ready)
                &&& forall|j: int| 0 <= j < open.len() ==> #[trigger] open[j] != Attempt::Ready
                &&& match who {
                    Raced::New => nu_con == Some(Attempt::Failed) && forall|j: int|
                        0 <= j < open.len() ==> #[trigger] open[j] == Attempt::Pending,
                    Raced::Prep(i) => {
                        &&& i < open.len()
                        &&& open[i as int] == Attempt::Failed
                        &&& forall|j: int|
                            i < j < open.len() ==> #[trigger] open[j] == Attempt::Pending
                    },
                }
            },
            RaceResult::Pending => {
                &&& nu_con is None || nu_con == Some(Attempt::Pending)
                &&& forall|j: int| 0 <= j < open.len() ==> #[trigger] open[j] == Attempt::Pending
            },
        },
{
    let failed = match nu_con {
        Some(a) => new_failed(a),
        None => None,
    };
    if nu_con != Some(Attempt::Ready) {
        lemma_race_from(open, 0, failed);
    }
}

proof fn lemma_race_from(open: Seq<Attempt>, from: int, failed: Option<Raced>)
    requires
        0 <= from <= open.len() <= usize::MAX,
    ensures
        match open_race(open, from, failed) {
            RaceResult::Won(Raced::New) => false,
            RaceResult::Won(Raced::Prep(i)) => {
                &&& from <= i < open.len()
                &&& open[i as int] == Attempt::Ready
                &&& forall|j: int| from <= j < i ==> #[trigger] open[j] != Attempt::Ready
            },
            RaceResult::Failed(who) => {
                &&& forall|j: int| from <= j < open.len() ==> #[trigger] open[j] != Attempt::Ready
                &&& {
                    ||| failed == Some(who) && forall|j: int|
                        from <= j < open.len() ==> #[trigger] open[j] == Attempt::Pending
                    ||| who matches Raced::Prep(i) && {
                        &&& from <= i < open.len()
                        &&& open[i as int] == Attempt::Failed
                        &&& forall|j: int|
                            i < j < open.len() ==> #[trigger] open[j] == Attempt::Pending
                    }
                }
            },
            RaceResult::Pending => {
                &&& failed is None
                &&& forall|j: int|
                    from <= j < open.len() ==> #[trigger] open[j] == Attempt::Pending
            },
        },
    decreases open.len() - from,
{
    if from < open.len() && open[from] != Attempt::Ready {
        let next = if open[from] == Attempt::Failed {
            Some(Raced::Prep(from as usize))
        } else {
            failed
        };
        lemma_race_from(open, from + 1, next);
    }
}

/// A pool is used with the limits that it was given.
pub proof fn law_pool_limits(pool: ConPool, rs: Seq<Record>, i: int)
    ensures
        pool.limits().max_cons == pool.max_cons,
        pool.limits().max_req_per_con == pool.max_req_per_con,
        record_views(rs).len() == rs.len(),
        0 <= i < rs.len() ==> record_views(rs)[i] == rs[i]@,
{
}

} // verus!
