//! What an application gets to know of a request.
use tokio::sync::OwnedSemaphorePermit;
use vstd::prelude::*;

use crate::buffer::{ascii, contents};
use crate::client::connection::inner::key_of;
use crate::client::connection::laws::law_request_arrives;
use crate::client::connection::request::{
    accepted, body_chunk, forwarded, header_var, header_vars, join, lemma_accepted, params,
    refused, request_fits, sent, skipped, started, var_name, Connection, HeaderMultilineStrategy,
    MultiHeaderStrategy, RequestHead, Sent,
};
use crate::client::connection::requests::RequestView;
use crate::codec::laws::law_item_layout;
use crate::codec::{chunk_bytes, item_bytes, sendable, FCGIType};
use crate::error::SendError;
use crate::fastcgi::params::read_pairs;
use crate::fastcgi::reader::{read_all, start, stream};
use crate::fastcgi::{BeginRequestBody, FastCGIRole, RecordType};
use crate::headers::names_of;
use crate::number::decimal;

verus! {

/// A header turns to a parameter with `HTTP_` before its name. Small letters turn to capital
/// ones, a dash turns to an underscore, and nothing else changes.
pub proof fn law_parameter_name(n: Seq<u8>, i: int)
    ensures
        var_name(n).len() == 5 + n.len(),
        var_name(n).take(5) == seq![0x48u8, 0x54, 0x54, 0x50, 0x5f],
        0 <= i < n.len() ==> {
            let b = var_name(n)[5 + i];
            &&& 0x61 <= n[i] <= 0x7a ==> b == n[i] - 32
            &&& n[i] == 0x2d ==> b == 0x5f
            &&& n[i] != 0x2d && (n[i] < 0x61 || n[i] > 0x7a) ==> b == n[i]
        },
{
    reveal_strlit("HTTP_");
    assert(ascii("HTTP_"@).len() == 5);
    assert(var_name(n).take(5) =~= seq![0x48u8, 0x54, 0x54, 0x50, 0x5f]);
}

/// Several values are joined in order, with one comma between two of them and nothing else.
pub proof fn law_values_joined(values: Seq<Seq<u8>>, v: Seq<u8>)
    ensures
        join(Seq::empty()) == Seq::<u8>::empty(),
        join(seq![v]) == v,
        values.len() > 0 ==> join(values.push(v)) == join(values) + seq![0x2cu8] + v,
{
    assert(values.push(v).drop_last() =~= values);
}

/// What is forwarded of a header: its first value, its last one, or all of them joined.
pub proof fn law_values_forwarded(values: Seq<Seq<u8>>)
    requires
        values.len() > 0,
    ensures
        forwarded(values, MultiHeaderStrategy::OnlyFirst) == values[0],
        forwarded(values, MultiHeaderStrategy::OnlyLast) == values[values.len() - 1],
        forwarded(values, MultiHeaderStrategy::Combine) == join(values),
        values.len() == 1 ==> forwarded(values, MultiHeaderStrategy::Combine) == values[0],
{
}

/// The headers turn to parameters in the order in which they are walked. Three of them do not:
/// authorization, content length and content type.
pub proof fn law_header_parameters(
    m: Map<Seq<u8>, Seq<Seq<u8>>>,
    names: Seq<Seq<u8>>,
    mul: MultiHeaderStrategy,
)
    ensures
        header_vars(m, names, mul) == names.filter(
            |n: Seq<u8>|
                n != ascii("authorization"@) && n != ascii("content-length"@) && n != ascii(
                    "content-type"@,
                ),
        ).map_values(|n: Seq<u8>| (var_name(n), forwarded(m[n], mul))),
    decreases names.len(),
{
    let kept = |n: Seq<u8>|
        n != ascii("authorization"@) && n != ascii("content-length"@) && n != ascii(
            "content-type"@,
        );
    let var = |n: Seq<u8>| (var_name(n), forwarded(m[n], mul));
    reveal(Seq::filter);
    if names.len() > 0 {
        let init = names.drop_last();
        law_header_parameters(m, init, mul);
        if kept(names.last()) {
            assert(init.filter(kept).push(names.last()).map_values(var) =~= init.filter(
                kept,
            ).map_values(var).push(var(names.last())));
        }
    }
    assert(header_vars(m, names, mul) =~= names.filter(kept).map_values(var));
}

/// Before the headers stand the parameters that the caller gave, the query, the method, the
/// content type if the request has one, and the content length if it has a body.
pub proof fn law_parameters(
    dyn_headers: Seq<(Seq<u8>, Seq<u8>)>,
    req: RequestHead,
    names: Seq<Seq<u8>>,
    mul: MultiHeaderStrategy,
)
    ensures
        ({
            let all = params(dyn_headers, req, names, mul);
            let n = dyn_headers.len() as int;
            let typed = req.fields().dom().contains(ascii("content-type"@));
            let bodied = req.size_upper != Some(0u64);
            let t = n + 2 + if typed {
                1int
            } else {
                0
            };
            let h = t + if bodied {
                1int
            } else {
                0
            };
            &&& all.len() >= h
            &&& all.take(n) == dyn_headers
            &&& all[n].0 == ascii("QUERY_STRING"@)
            &&& req.query matches Some(q) ==> all[n].1 == contents(q)
            &&& req.query is None ==> all[n].1.len() == 0
            &&& all[n + 1].0 == ascii("REQUEST_METHOD"@)
            &&& all[n + 1].1 == contents(req.method)
            &&& typed ==> all[n + 2].0 == ascii("CONTENT_TYPE"@) && (
            req.fields()[ascii("content-type"@)].len() > 0 ==> all[n + 2].1
                == req.fields()[ascii("content-type"@)][0])
            &&& bodied ==> all[t].0 == ascii("CONTENT_LENGTH"@) && all[t].1 == decimal(
                req.size_lower as nat,
            )
            &&& all.skip(h) == header_vars(req.fields(), names, mul)
        }),
{
    let all = params(dyn_headers, req, names, mul);
    let vars = req.vars();
    let n = dyn_headers.len() as int;
    assert(all.take(n) =~= dyn_headers);
    assert forall|i: int| 0 <= i < vars.len() implies all[n + i] == #[trigger] vars[i] by {}
    assert(all[n + 0] == vars[0]);
    assert(all[n + 1] == vars[1]);
    if vars.len() > 2 {
        assert(all[n + 2] == vars[2]);
    }
    if vars.len() > 3 {
        assert(all[n + 3] == vars[3]);
    }
    assert(all.skip(n + vars.len()) =~= header_vars(req.fields(), names, mul));
}

/// Every header of a request that was sent arrives at the application, under its name in
/// capital letters and with its forwarded value: all but authorization, content length and
/// content type.
pub proof fn law_every_header_arrives(
    con: Connection,
    dyn_headers: Seq<(Seq<u8>, Seq<u8>)>,
    req: RequestHead,
    names: Seq<Seq<u8>>,
    rid: u16,
    out: Seq<u8>,
    r: Sent,
    n: Seq<u8>,
)
    requires
        request_fits(dyn_headers, req, con.header_mul),
        names_of(req.fields(), names),
        sent(con, dyn_headers, req, names, rid, out, Ok(r)),
        req.fields().dom().contains(n),
        n != ascii("authorization"@),
        n != ascii("content-length"@),
        n != ascii("content-type"@),
    ensures
        read_pairs(stream(read_all(start(), out).fragments, RecordType::Params, rid)) matches Some(
            pairs,
        ) && pairs.contains((var_name(n), forwarded(req.fields()[n], con.header_mul))),
{
    law_request_arrives(con, dyn_headers, req, names, rid, out, r);
    let all = params(dyn_headers, req, names, con.header_mul);
    let vars = header_vars(req.fields(), names, con.header_mul);
    let k = choose|k: int| 0 <= k < names.len() && names[k] == n;
    assert(names.contains(n));
    lemma_var_there(req.fields(), names, con.header_mul, k);
    let j = choose|j: int|
        0 <= j < vars.len() && vars[j] == (var_name(n), forwarded(req.fields()[n], con.header_mul));
    assert(all[dyn_headers.len() + req.vars().len() + j] == vars[j]);
}

/// The same, character by character: one of the parameters that the application reads has a
/// name of `HTTP_` and the name of the header, with capital letters for small ones and
/// underscores for dashes, and the first value of the header, or the last one, or the only one.
pub proof fn law_header_spelled(
    con: Connection,
    dyn_headers: Seq<(Seq<u8>, Seq<u8>)>,
    req: RequestHead,
    names: Seq<Seq<u8>>,
    rid: u16,
    out: Seq<u8>,
    r: Sent,
    n: Seq<u8>,
)
    requires
        request_fits(dyn_headers, req, con.header_mul),
        names_of(req.fields(), names),
        sent(con, dyn_headers, req, names, rid, out, Ok(r)),
        req.fields().dom().contains(n),
        req.fields()[n].len() > 0,
        n != ascii("authorization"@),
        n != ascii("content-length"@),
        n != ascii("content-type"@),
    ensures
        read_pairs(stream(read_all(start(), out).fragments, RecordType::Params, rid)) matches Some(
            pairs,
        ) && exists|k: int|
            {
                let values = req.fields()[n];
                let name = (#[trigger] pairs[k]).0;
                let value = pairs[k].1;
                &&& 0 <= k < pairs.len()
                &&& name.len() == 5 + n.len()
                &&& name[0] == 0x48 && name[1] == 0x54 && name[2] == 0x54 && name[3] == 0x50
                    && name[4] == 0x5f
                &&& forall|i: int|
                    0 <= i < n.len() ==> name[5 + i] == if #[trigger] n[i] == 0x2d {
                        0x5f
                    } else if 0x61 <= n[i] <= 0x7a {
                        n[i] - 32
                    } else {
                        n[i] as int
                    }
                &&& con.header_mul is OnlyFirst ==> value == values[0]
                &&& con.header_mul is OnlyLast ==> value == values[values.len() - 1]
                &&& values.len() == 1 ==> value == values[0]
            },
{
    law_every_header_arrives(con, dyn_headers, req, names, rid, out, r, n);
    law_values_forwarded(req.fields()[n]);
    let pairs = read_pairs(stream(read_all(start(), out).fragments, RecordType::Params, rid))->0;
    let var = (var_name(n), forwarded(req.fields()[n], con.header_mul));
    let k = choose|k: int| 0 <= k < pairs.len() && pairs[k] == var;
    assert(pairs[k].0 == var_name(n));
    law_parameter_name(n, 0);
    let name = var_name(n);
    assert(name[0] == name.take(5)[0] && name[1] == name.take(5)[1] && name[2] == name.take(5)[2]
        && name[3] == name.take(5)[3] && name[4] == name.take(5)[4]);
    assert forall|i: int| 0 <= i < n.len() implies name[5 + i] == if #[trigger] n[i] == 0x2d {
        0x5f
    } else if 0x61 <= n[i] <= 0x7a {
        n[i] - 32
    } else {
        n[i] as int
    } by {
        law_parameter_name(n, i);
    }
}

proof fn lemma_var_there(
    m: Map<Seq<u8>, Seq<Seq<u8>>>,
    names: Seq<Seq<u8>>,
    mul: MultiHeaderStrategy,
    k: int,
)
    requires
        0 <= k < names.len(),
        names[k] != ascii("authorization"@),
        names[k] != ascii("content-length"@),
        names[k] != ascii("content-type"@),
    ensures
        header_vars(m, names, mul).contains((var_name(names[k]), forwarded(m[names[k]], mul))),
    decreases names.len(),
{
    let vars = header_vars(m, names, mul);
    let var = (var_name(names[k]), forwarded(m[names[k]], mul));
    if k == names.len() - 1 {
        assert(vars[vars.len() - 1] == var);
    } else {
        let init = names.drop_last();
        lemma_var_there(m, init, mul, k);
        let so_far = header_vars(m, init, mul);
        let j = choose|j: int| 0 <= j < so_far.len() && so_far[j] == var;
        assert(vars[j] == var);
    }
}

/// The query, the method and what the caller gave arrive at the application as well.
pub proof fn law_request_line_arrives(
    con: Connection,
    dyn_headers: Seq<(Seq<u8>, Seq<u8>)>,
    req: RequestHead,
    names: Seq<Seq<u8>>,
    rid: u16,
    out: Seq<u8>,
    r: Sent,
)
    requires
        request_fits(dyn_headers, req, con.header_mul),
        names_of(req.fields(), names),
        sent(con, dyn_headers, req, names, rid, out, Ok(r)),
    ensures
        read_pairs(stream(read_all(start(), out).fragments, RecordType::Params, rid)) matches Some(
            pairs,
        ) && ({
            let n = dyn_headers.len() as int;
            &&& pairs.len() >= n + 2
            &&& pairs.take(n) == dyn_headers
            &&& pairs[n].0 == ascii("QUERY_STRING"@)
            &&& req.query matches Some(q) ==> pairs[n].1 == contents(q)
            &&& req.query is None ==> pairs[n].1.len() == 0
            &&& pairs[n + 1] == (ascii("REQUEST_METHOD"@), contents(req.method))
        }),
{
    law_request_arrives(con, dyn_headers, req, names, rid, out, r);
    law_parameters(dyn_headers, req, names, con.header_mul);
}

/// A request is refused if and only if line feeds are not to be forwarded and what is forwarded
/// of a header, other than authorization, content length and content type, has one.
pub proof fn law_refused_for_line_feeds(
    con: Connection,
    dyn_headers: Seq<(Seq<u8>, Seq<u8>)>,
    req: RequestHead,
    names: Seq<Seq<u8>>,
    rid: u16,
    out: Seq<u8>,
    r: Result<Sent, SendError>,
)
    requires
        names_of(req.fields(), names),
        sent(con, dyn_headers, req, names, rid, out, r),
    ensures
        r is Err <==> con.header_nl is ReturnError && exists|n: Seq<u8>| #[trigger]
            req.fields().dom().contains(n) && n != ascii("authorization"@) && n != ascii(
                "content-length"@,
            ) && n != ascii("content-type"@) && forwarded(
                req.fields()[n],
                con.header_mul,
            ).contains(0x0au8),
        r matches Err(e) ==> e is MultilineHeader,
{
    let m = req.fields();
    let (mul, nl) = (con.header_mul, con.header_nl);
    lemma_accepted(m, names, mul, nl, names.len() as int);
    assert(names.take(names.len() as int) =~= names);
    lemma_accepts_all(m, names, mul, nl);
    if accepted(m, names, mul, nl) < names.len() {
        let i = choose|i: int| 0 <= i < names.len() && refused(m, #[trigger] names[i], mul, nl);
        assert(names.contains(names[i]));
        assert(m.dom().contains(names[i]));
    }
    if con.header_nl is ReturnError && exists|n: Seq<u8>| #[trigger]
        m.dom().contains(n) && n != ascii("authorization"@) && n != ascii("content-length"@) && n
            != ascii("content-type"@) && forwarded(m[n], mul).contains(0x0au8) {
        let n = choose|n: Seq<u8>| #[trigger]
            m.dom().contains(n) && n != ascii("authorization"@) && n != ascii("content-length"@)
                && n != ascii("content-type"@) && forwarded(m[n], mul).contains(0x0au8);
        assert(names.contains(n));
        let i = choose|i: int| 0 <= i < names.len() && names[i] == n;
        assert(refused(m, names[i], mul, nl));
    }
}

proof fn lemma_accepts_all(
    m: Map<Seq<u8>, Seq<Seq<u8>>>,
    names: Seq<Seq<u8>>,
    mul: MultiHeaderStrategy,
    nl: HeaderMultilineStrategy,
)
    ensures
        accepted(m, names, mul, nl) <= names.len(),
        accepted(m, names, mul, nl) < names.len() <==> exists|i: int|
            0 <= i < names.len() && refused(m, #[trigger] names[i], mul, nl),
    decreases names.len(),
{
    if names.len() > 0 {
        let init = names.drop_last();
        lemma_accepts_all(m, init, mul, nl);
        if exists|i: int| 0 <= i < init.len() && refused(m, #[trigger] init[i], mul, nl) {
            let i = choose|i: int| 0 <= i < init.len() && refused(m, #[trigger] init[i], mul, nl);
            assert(refused(m, names[i], mul, nl));
        }
        if exists|i: int| 0 <= i < names.len() && refused(m, #[trigger] names[i], mul, nl) {
            let i = choose|i: int| 0 <= i < names.len() && refused(m, #[trigger] names[i], mul, nl);
            if i < init.len() {
                assert(refused(m, init[i], mul, nl));
            }
        }
        if refused(m, names.last(), mul, nl) {
            assert(refused(m, names[names.len() - 1], mul, nl));
        }
    }
}

/// A request that was sent keeps its id, and its body has to have as many bytes as the request
/// has at least. There is no body if and only if the request is known to have none.
pub proof fn law_announced_length(
    con: Connection,
    dyn_headers: Seq<(Seq<u8>, Seq<u8>)>,
    req: RequestHead,
    names: Seq<Seq<u8>>,
    rid: u16,
    out: Seq<u8>,
    r: Sent,
)
    requires
        sent(con, dyn_headers, req, names, rid, out, Ok(r)),
    ensures
        r.rid == rid,
        r.len is None <==> req.size_upper == Some(0u64),
        r.len matches Some(n) ==> n == req.size_lower as usize,
{
}

/// A request starts with the sixteen bytes that begin it: as a responder, and with the
/// connection kept open.
pub proof fn law_request_begins(
    con: Connection,
    dyn_headers: Seq<(Seq<u8>, Seq<u8>)>,
    req: RequestHead,
    names: Seq<Seq<u8>>,
    rid: u16,
    out: Seq<u8>,
    r: Result<Sent, SendError>,
)
    requires
        sent(con, dyn_headers, req, names, rid, out, r),
    ensures
        out.len() >= 16,
        out.take(16) == seq![
            1u8,
            1,
            (rid / 256) as u8,
            (rid % 256) as u8,
            0,
            8,
            0,
            0,
            0,
            1,
            1,
            0,
            0,
            0,
            0,
            0,
        ],
{
    let item = FCGIType::BeginRequest {
        request_id: rid,
        role: FastCGIRole::Responder,
        flags: BeginRequestBody::KEEP_CONN,
    };
    law_item_layout(rid, FastCGIRole::Responder, 1, 0, 0);
    let begin = item_bytes(item);
    assert(begin.len() == 16);
    assert(out.take(16) =~= begin);
    assert(begin =~= out.take(16));
    assert(out.take(16) =~= seq![
        1u8,
        1,
        (rid / 256) as u8,
        (rid % 256) as u8,
        0,
        8,
        0,
        0,
        0,
        1,
        1,
        0,
        0,
        0,
        0,
        0,
    ]);
}

/// A request that is refused ends with an abort.
pub proof fn law_refused_ends_with_abort(
    con: Connection,
    dyn_headers: Seq<(Seq<u8>, Seq<u8>)>,
    req: RequestHead,
    names: Seq<Seq<u8>>,
    rid: u16,
    out: Seq<u8>,
    e: SendError,
)
    requires
        sent(con, dyn_headers, req, names, rid, out, Err(e)),
    ensures
        out.len() >= 24,
        out.skip(out.len() - 8) == seq![
            1u8,
            2,
            (rid / 256) as u8,
            (rid % 256) as u8,
            0,
            0,
            0,
            0,
        ],
{
    law_request_begins(con, dyn_headers, req, names, rid, out, Err(e));
    law_item_layout(rid, FastCGIRole::Responder, 1, 0, 0);
    let abort = item_bytes(FCGIType::AbortRequest { request_id: rid });
    assert(out.skip(out.len() - 8) =~= abort);
}

/// A request can be sent if no name and no value of its parameters has more than 0x7fffffff
/// bytes.
pub proof fn law_request_fits(
    dyn_headers: Seq<(Seq<u8>, Seq<u8>)>,
    req: RequestHead,
    mul: MultiHeaderStrategy,
)
    ensures
        request_fits(dyn_headers, req, mul) <==> {
            &&& forall|i: int|
                0 <= i < dyn_headers.len() ==> (#[trigger] dyn_headers[i]).0.len() <= 0x7fff_ffff
                    && dyn_headers[i].1.len() <= 0x7fff_ffff
            &&& forall|i: int|
                0 <= i < req.vars().len() ==> (#[trigger] req.vars()[i]).0.len() <= 0x7fff_ffff
                    && req.vars()[i].1.len() <= 0x7fff_ffff
            &&& forall|n: Seq<u8>| #[trigger]
                req.fields().dom().contains(n) && n != ascii("authorization"@) && n != ascii(
                    "content-length"@,
                ) && n != ascii("content-type"@) ==> var_name(n).len() <= 0x7fff_ffff && forwarded(
                    req.fields()[n],
                    mul,
                ).len() <= 0x7fff_ffff
        },
{
    if request_fits(dyn_headers, req, mul) {
        assert forall|i: int| 0 <= i < dyn_headers.len() implies (#[trigger] dyn_headers[i]).0.len()
            <= 0x7fff_ffff && dyn_headers[i].1.len() <= 0x7fff_ffff by {
            assert(sendable(dyn_headers[i]));
        }
        assert forall|i: int| 0 <= i < req.vars().len() implies (#[trigger] req.vars()[i]).0.len()
            <= 0x7fff_ffff && req.vars()[i].1.len() <= 0x7fff_ffff by {
            assert(sendable(req.vars()[i]));
        }
        assert forall|n: Seq<u8>| #[trigger]
            req.fields().dom().contains(n) && n != ascii("authorization"@) && n != ascii(
                "content-length"@,
            ) && n != ascii("content-type"@) implies var_name(n).len() <= 0x7fff_ffff && forwarded(
            req.fields()[n],
            mul,
        ).len() <= 0x7fff_ffff by {
            assert(!skipped(n));
            assert(sendable(header_var(req.fields(), n, mul)));
        }
    }
}

/// A chunk of a body is written if it has bytes, and for one without bytes nothing is.
pub proof fn law_body_chunk(id: u16, data: Seq<u8>)
    ensures
        data.len() == 0 ==> body_chunk(id, data).len() == 0,
        data.len() > 0 ==> body_chunk(id, data) == chunk_bytes(RecordType::StdIn, id, data),
{
}

/// A request that was started has an id that was not in use, holds nothing, waits for nobody
/// and has not ended. The others do not notice.
pub proof fn law_started(
    m: Map<usize, RequestView>,
    rid: u16,
    permit: OwnedSemaphorePermit,
    m2: Map<usize, RequestView>,
    other: usize,
)
    requires
        started(m, rid, permit, m2),
    ensures
        rid > 0,
        key_of(rid) == rid - 1,
        !m.dom().contains((rid - 1) as usize),
        m2.dom().contains((rid - 1) as usize),
        m2[(rid - 1) as usize].chunks.len() == 0,
        m2[(rid - 1) as usize].waker is None,
        !m2[(rid - 1) as usize].ended,
        m2[(rid - 1) as usize].permit == permit,
        other != rid - 1 ==> m2.dom().contains(other) == m.dom().contains(other),
        other != rid - 1 && m.dom().contains(other) ==> m2[other] == m[other],
{
}

} // verus!
