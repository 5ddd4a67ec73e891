//! Name-value pairs: Params, GetValues and GetValuesResult.
use bytes::{Bytes, BytesMut};
use vstd::prelude::*;

use crate::buffer::{
    advance, be32, chunk, contents, get_u32, lemma_assoc, lemma_read32, put_u32, put_u8, read32,
    slice, written,
};
use crate::bufvec::BufList;
use crate::fastcgi::record::Body;

verus! {

/// The largest length that a name or a value can have on the wire.
pub const MAX_PART: usize = 0x7fff_ffff;

// ---------------------------------------------------------------- wire format

/// How the length `n` of a name or value is written: one byte up to `0x7f`, else four
/// bytes with the topmost bit set.
pub open spec fn len_prefix(n: int) -> Seq<u8> {
    if n <= 0x7f {
        seq![n as u8]
    } else {
        be32((n + 0x8000_0000) as u32)
    }
}

/// How a pair is written: both lengths, then the name, then the value.
pub open spec fn pair_bytes(name: Seq<u8>, value: Seq<u8>) -> Seq<u8> {
    len_prefix(name.len() as int) + len_prefix(value.len() as int) + name + value
}

/// The number of bytes that a pair takes, by the lengths of its name and value.
pub open spec fn pair_len(name: int, value: int) -> int {
    name + value + 2 + (if name > 0x7f {
        3int
    } else {
        0
    }) + (if value > 0x7f {
        3int
    } else {
        0
    })
}

/// How a list of pairs is written: one after the other.
pub open spec fn encode_pairs(pairs: Seq<(Seq<u8>, Seq<u8>)>) -> Seq<u8>
    decreases pairs.len(),
{
    if pairs.len() == 0 {
        Seq::empty()
    } else {
        pair_bytes(pairs[0].0, pairs[0].1) + encode_pairs(pairs.drop_first())
    }
}

/// The length at the start of `s` and the number of bytes that it takes, if `s` holds one.
pub open spec fn read_len(s: Seq<u8>) -> Option<(int, int)> {
    if s.len() == 0 {
        None
    } else if s[0] <= 0x7f {
        Some((s[0] as int, 1))
    } else if s.len() < 4 {
        None
    } else {
        Some((read32(s) - 0x8000_0000, 4))
    }
}

/// The name and value of the pair at the start of `s` and the number of bytes that the pair
/// takes, if `s` holds a whole one.
pub open spec fn read_pair(s: Seq<u8>) -> Option<(Seq<u8>, Seq<u8>, int)> {
    match read_len(s) {
        None => None,
        Some((ln, wn)) => match read_len(s.skip(wn)) {
            None => None,
            Some((lv, wv)) => {
                let head = wn + wv;
                if head + ln + lv > s.len() {
                    None
                } else {
                    Some(
                        (
                            s.subrange(head, head + ln),
                            s.subrange(head + ln, head + ln + lv),
                            head + ln + lv,
                        ),
                    )
                }
            },
        },
    }
}

/// All pairs of `s`, if it is made of whole pairs.
pub open spec fn read_pairs(s: Seq<u8>) -> Option<Seq<(Seq<u8>, Seq<u8>)>>
    decreases s.len(),
{
    if s.len() == 0 {
        Some(Seq::empty())
    } else {
        match read_pair(s) {
            None => None,
            Some((name, value, n)) => match read_pairs(s.skip(n)) {
                None => None,
                Some(rest) => Some(seq![(name, value)] + rest),
            },
        }
    }
}

// ---------------------------------------------------------------- pairs

pub struct NameValuePair {
    pub name_data: Bytes,
    pub value_data: Bytes,
}

impl View for NameValuePair {
    type V = (Seq<u8>, Seq<u8>);

    open spec fn view(&self) -> (Seq<u8>, Seq<u8>) {
        (contents(self.name_data), contents(self.value_data))
    }
}

impl NameValuePair {
    /// Takes the pair at the start of `data`.
    pub fn parse(data: &mut Bytes) -> (r: NameValuePair)
        requires
            read_pair(contents(*old(data))) is Some,
        ensures
            read_pair(contents(*old(data))) matches Some((name, value, n)) && {
                &&& r@ == (name, value)
                &&& contents(*final(data)) == contents(*old(data)).skip(n)
            },
    {
        let ghost s = contents(*data);
        let len: usize = data.len();
        let mut pos: usize = 0;
        assert(s.skip(0) =~= s);
        let key_length = NameValuePair::param_length(data, &mut pos);
        let value_length = NameValuePair::param_length(data, &mut pos);
        let key = slice(data, pos, pos + key_length);
        pos += key_length;
        let value = slice(data, pos, pos + value_length);
        pos += value_length;
        advance(data, pos);
        NameValuePair { name_data: key, value_data: value }
    }

    pub fn new(name_data: Bytes, value_data: Bytes) -> (r: NameValuePair)
        ensures
            r.name_data == name_data,
            r.value_data == value_data,
    {
        NameValuePair { name_data, value_data }
    }

    /// Reads the length at `pos` and moves `pos` behind it.
    fn param_length(data: &Bytes, pos: &mut usize) -> (r: usize)
        requires
            *old(pos) <= contents(*data).len(),
            read_len(contents(*data).skip(*old(pos) as int)) is Some,
        ensures
            read_len(contents(*data).skip(*old(pos) as int)) == Some(
                (r as int, *final(pos) - *old(pos)),
            ),
    {
        let ghost s = contents(*data).skip(*pos as int);
        let len: usize = data.len();
        let first: u8 = chunk(data)[*pos];
        assert(first == s[0]);
        if first >> 7 == 1 {
            assert(first >> 7 == 1 ==> first >= 0x80) by (bit_vector);
            let mut four = slice(data, *pos, *pos + 4);
            assert(contents(four) =~= s.take(4));
            let n: u32 = get_u32(&mut four);
            assert(n >= 0x8000_0000u32 ==> n & 0x7FFFFFFF == n - 0x8000_0000u32) by (bit_vector);
            *pos += 4;
            (n & 0x7FFFFFFF) as usize
        } else {
            assert(first >> 7 != 1 ==> first <= 0x7f) by (bit_vector);
            *pos += 1;
            first as usize
        }
    }

    /// The number of bytes that this pair takes in a record.
    pub fn len(&self) -> (r: usize)
        requires
            self@.0.len() + self@.1.len() + 8 <= usize::MAX,
        ensures
            r == pair_len(self@.0.len() as int, self@.1.len() as int),
    {
        let ln = self.name_data.len();
        let lv = self.value_data.len();
        let mut lf: usize = ln + lv + 2;
        if ln > 0x7f {
            lf += 3;
        }
        if lv > 0x7f {
            lf += 3;
        }
        lf
    }
}

/// Appends the length of a name or value to `buf`.
pub(crate) fn put_len(buf: &mut BytesMut, n: usize)
    requires
        n <= MAX_PART,
        written(*old(buf)).len() + 4 <= isize::MAX,
    ensures
        written(*final(buf)) == written(*old(buf)) + len_prefix(n as int),
{
    if n > 0x7f {
        let v: u32 = n as u32;
        assert(v <= 0x7fff_ffffu32 ==> v | 0x8000_0000 == v + 0x8000_0000) by (bit_vector);
        put_u32(buf, v | 0x8000_0000);
    } else {
        put_u8(buf, n as u8);
        assert(written(*buf) =~= written(*old(buf)) + len_prefix(n as int));
    }
}

/// Body type for Params and GetValues.
/// Holds multiple NameValuePair's
pub struct NVBody {
    pub pairs: BufList<Bytes>,
    pub len: u16,
}

impl NVBody {
    /// The bytes of this body.
    pub open spec fn data(self) -> Seq<u8> {
        self.pairs.bytes()
    }

    /// `len` is the length of the body.
    pub open spec fn wf(self) -> bool {
        &&& self.pairs.wf()
        &&& self.data().len() == self.len
    }

    pub fn new() -> (r: NVBody)
        ensures
            r.wf(),
            r.data() == Seq::<u8>::empty(),
    {
        let r = NVBody { pairs: BufList::new(), len: 0 };
        assert(r.data() =~= Seq::<u8>::empty());
        r
    }

    /// Whether there is space left for `pair`.
    pub fn fits(&self, pair: &NameValuePair) -> (r: bool)
        requires
            self.wf(),
            pair@.0.len() + pair@.1.len() + 8 + Body::MAX_LENGTH <= usize::MAX,
        ensures
            r == (self.data().len() + pair_len(pair@.0.len() as int, pair@.1.len() as int)
                <= Body::MAX_LENGTH),
    {
        let l: usize = pair.len() + self.len as usize;
        l <= Body::MAX_LENGTH
    }

    /// Appends `pair`, or leaves the body as it is if there is no space left.
    ///
    /// The name of a pair that is appended has at least one byte.
    pub fn add(&mut self, pair: NameValuePair) -> (r: Result<(), ()>)
        requires
            old(self).wf(),
            pair@.0.len() + pair@.1.len() + 8 + Body::MAX_LENGTH <= usize::MAX,
            old(self).data().len() + pair_len(pair@.0.len() as int, pair@.1.len() as int)
                <= Body::MAX_LENGTH ==> pair@.0.len() > 0,
        ensures
            final(self).wf(),
            r is Ok <==> old(self).data().len() + pair_len(
                pair@.0.len() as int,
                pair@.1.len() as int,
            ) <= Body::MAX_LENGTH,
            r is Ok ==> final(self).data() == old(self).data() + pair_bytes(pair@.0, pair@.1),
            r is Ok ==> final(self).len == old(self).len + pair_len(
                pair@.0.len() as int,
                pair@.1.len() as int,
            ),
            r is Err ==> *final(self) == *old(self),
    {
        let l: usize = pair.len() + self.len as usize;
        if l > Body::MAX_LENGTH {
            return Err(());  // this body is full
        }
        let ghost before = self.data();
        proof {
            lemma_pair_len(pair@.0, pair@.1);
        }
        self.len = l as u16;

        let ln = pair.name_data.len();
        let lv = pair.value_data.len();
        let mut lf: usize = 2;
        if ln > 0x7f {
            lf += 3;
        }
        if lv > 0x7f {
            lf += 3;
        }
        let mut data: BytesMut = BytesMut::with_capacity(lf);
        put_len(&mut data, ln);
        put_len(&mut data, lv);
        let ghost prefix = written(data);
        self.pairs.push(data.freeze());
        self.pairs.push(pair.name_data);
        if lv > 0 {
            self.pairs.push(pair.value_data);
        }
        assert(self.data() =~= before + pair_bytes(pair@.0, pair@.1));
        Ok(())
    }

    /// A body with the bytes of `buf`.
    pub(crate) fn from_bytes(buf: Bytes) -> (r: NVBody)
        requires
            contents(buf).len() <= Body::MAX_LENGTH,
        ensures
            r.wf(),
            r.data() == contents(buf),
    {
        let mut b = NVBody::new();
        b.len = buf.len() as u16;
        if b.len > 0 {
            b.pairs.push(buf);
        }
        assert(b.data() =~= contents(buf));
        b
    }

    /// The pairs of this body, to be taken one by one.
    pub fn drain(self) -> (r: NVDrain)
        requires
            self.wf(),
        ensures
            contents(r.0) == self.data(),
    {
        let mut pairs = self.pairs;
        let r = NVDrain(pairs.copy_to_bytes(self.len as usize));
        assert(contents(r.0) =~= self.data());
        r
    }
}

/// Takes the pairs of a body one by one.
pub struct NVDrain(pub Bytes);

impl NVDrain {
    /// Takes the next pair. The bytes that are left have to start with a whole pair.
    pub fn next(&mut self) -> (r: Option<NameValuePair>)
        requires
            contents(old(self).0).len() > 0 ==> read_pair(contents(old(self).0)) is Some,
        ensures
            match r {
                None => contents(old(self).0).len() == 0 && *final(self) == *old(self),
                Some(pair) => {
                    &&& contents(old(self).0).len() > 0
                    &&& read_pair(contents(old(self).0)) matches Some((name, value, n)) && {
                        &&& pair@ == (name, value)
                        &&& contents(final(self).0) == contents(old(self).0).skip(n)
                    }
                },
            },
    {
        if self.0.len() == 0 {
            return None;
        }
        Some(NameValuePair::parse(&mut self.0))
    }

    /// There is at least one pair, and nobody knows how many.
    pub fn size_hint(&self) -> (r: (usize, Option<usize>))
        ensures
            r == (1usize, None::<usize>),
    {
        (1, None)
    }

    /// Whether the bytes that are left start with a whole pair.
    pub fn has_pair(&self) -> (r: bool)
        ensures
            r == (read_pair(contents(self.0)) is Some),
    {
        let ghost s = contents(self.0);
        let len: usize = self.0.len();
        let mut pos: usize = 0;
        assert(s.skip(0) =~= s);
        if !Self::has_len(&self.0, pos) {
            return false;
        }
        let ln: usize = NameValuePair::param_length(&self.0, &mut pos);
        if !Self::has_len(&self.0, pos) {
            return false;
        }
        let lv: usize = NameValuePair::param_length(&self.0, &mut pos);
        ln <= len - pos && lv <= len - pos - ln
    }

    /// Whether there is a whole length at `pos`.
    fn has_len(data: &Bytes, pos: usize) -> (r: bool)
        requires
            pos <= contents(*data).len(),
        ensures
            r == (read_len(contents(*data).skip(pos as int)) is Some),
    {
        let len: usize = data.len();
        if pos >= len {
            return false;
        }
        let first: u8 = chunk(data)[pos];
        assert(first == contents(*data).skip(pos as int)[0]);
        first <= 0x7f || len - pos >= 4
    }
}

// ---------------------------------------------------------------- lists of bodies

/// What the bodies hold after `pair` was added to them: it goes into the last one, or into
/// a new one if there is no space left.
pub open spec fn bodies_add(bodies: Seq<Seq<u8>>, pair: (Seq<u8>, Seq<u8>)) -> Seq<Seq<u8>> {
    let bytes = pair_bytes(pair.0, pair.1);
    if bodies.last().len() + bytes.len() <= Body::MAX_LENGTH {
        bodies.drop_last().push(bodies.last() + bytes)
    } else {
        bodies.push(bytes)
    }
}

/// What the bodies hold after all `pairs` were added to them.
pub open spec fn bodies_extend(
    bodies: Seq<Seq<u8>>,
    pairs: Seq<(Seq<u8>, Seq<u8>)>,
) -> Seq<Seq<u8>>
    decreases pairs.len(),
{
    if pairs.len() == 0 {
        bodies
    } else {
        bodies_add(bodies_extend(bodies, pairs.drop_last()), pairs.last())
    }
}

/// Whether a pair can be held by one record.
pub open spec fn one_record(pair: (Seq<u8>, Seq<u8>)) -> bool {
    &&& pair.0.len() > 0
    &&& pair_len(pair.0.len() as int, pair.1.len() as int) <= Body::MAX_LENGTH
}

/// The bytes of a list of pairs.
pub open spec fn pair_views(pairs: Seq<(Bytes, Bytes)>) -> Seq<(Seq<u8>, Seq<u8>)> {
    pairs.map_values(|p: (Bytes, Bytes)| (contents(p.0), contents(p.1)))
}

/// Helper type to generate one or more NVBody Records,
/// depending on the space needed
pub struct NVBodyList {
    pub bodies: Vec<NVBody>,
}

impl View for NVBodyList {
    type V = Seq<Seq<u8>>;

    open spec fn view(&self) -> Seq<Seq<u8>> {
        self.bodies@.map_values(|b: NVBody| b.data())
    }
}

impl NVBodyList {
    /// There is a body, and each body knows its length.
    pub open spec fn wf(self) -> bool {
        &&& self.bodies@.len() > 0
        &&& forall|i: int| 0 <= i < self.bodies@.len() ==> (#[trigger] self.bodies@[i]).wf()
    }

    pub fn new() -> (r: NVBodyList)
        ensures
            r.wf(),
            r@ == seq![Seq::<u8>::empty()],
    {
        let mut bodies: Vec<NVBody> = Vec::new();
        bodies.push(NVBody::new());
        let r = NVBodyList { bodies };
        assert(r@ =~= seq![Seq::<u8>::empty()]);
        r
    }

    /// Adds a pair that is not bigger than one record.
    pub fn add(&mut self, pair: NameValuePair)
        requires
            old(self).wf(),
            old(self).bodies@.len() < usize::MAX,
            one_record(pair@),
        ensures
            final(self).wf(),
            final(self)@ == bodies_add(old(self)@, pair@),
    {
        proof {
            lemma_pair_len(pair@.0, pair@.1);
        }
        let ghost before = *self;
        let last: usize = self.bodies.len() - 1;
        if self.bodies[last].fits(&pair) {
            let _ = self.bodies[last].add(pair);
            assert(self@ =~= bodies_add(before@, pair@));
        } else {
            let mut fresh = NVBody::new();
            let ghost empty = fresh.data();
            let _ = fresh.add(pair);
            assert(empty + pair_bytes(pair@.0, pair@.1) =~= pair_bytes(pair@.0, pair@.1));
            self.bodies.push(fresh);
            assert(self@ =~= bodies_add(before@, pair@));
        }
    }

    /// Adds all pairs, none of which is bigger than one record.
    pub fn extend(&mut self, iter: Vec<(Bytes, Bytes)>)
        requires
            old(self).wf(),
            old(self).bodies@.len() + iter@.len() <= usize::MAX,
            forall|i: int| 0 <= i < iter@.len() ==> one_record(#[trigger] pair_views(iter@)[i]),
        ensures
            final(self).wf(),
            final(self)@ == bodies_extend(old(self)@, pair_views(iter@)),
    {
        let ghost all = pair_views(iter@);
        let mut i: usize = 0;
        assert(all.take(0) =~= Seq::empty());
        while i < iter.len()
            invariant
                i <= iter@.len(),
                all == pair_views(iter@),
                self.wf(),
                old(self).bodies@.len() + iter@.len() <= usize::MAX,
                self.bodies@.len() <= old(self).bodies@.len() + i,
                forall|i: int| 0 <= i < iter@.len() ==> one_record(#[trigger] all[i]),
                self@ == bodies_extend(old(self)@, all.take(i as int)),
            decreases iter@.len() - i,
        {
            let ghost before = self@;
            assert(one_record(all[i as int]));
            self.add(NameValuePair::new(iter[i].0.clone(), iter[i].1.clone()));
            assert(self@.len() == self.bodies@.len());
            assert(all.take(i + 1).drop_last() =~= all.take(i as int));
            i += 1;
        }
        assert(all.take(i as int) =~= all);
    }

    /// The bodies that hold all pairs, none of which is bigger than one record.
    pub fn from_iter(iter: Vec<(Bytes, Bytes)>) -> (r: NVBodyList)
        requires
            iter@.len() < usize::MAX,
            forall|i: int| 0 <= i < iter@.len() ==> one_record(#[trigger] pair_views(iter@)[i]),
        ensures
            r.wf(),
            r@ == bodies_extend(seq![Seq::<u8>::empty()], pair_views(iter@)),
    {
        let mut nv = NVBodyList::new();
        assert(nv@.len() == nv.bodies@.len());
        nv.extend(iter);
        nv
    }
}

// ---------------------------------------------------------------- laws

/// A pair takes as many bytes as `pair_len` says.
pub proof fn lemma_pair_len(name: Seq<u8>, value: Seq<u8>)
    ensures
        pair_bytes(name, value).len() == pair_len(name.len() as int, value.len() as int),
{
}

proof fn lemma_read_len(n: int, rest: Seq<u8>)
    requires
        0 <= n <= MAX_PART,
    ensures
        read_len(len_prefix(n) + rest) == Some((n, len_prefix(n).len() as int)),
{
    if n > 0x7f {
        let v = (n + 0x8000_0000) as u32;
        lemma_read32(v, rest);
        assert((len_prefix(n) + rest)[0] == (v / 0x100_0000) as u8);
    }
}

/// Where the parts of five runs of bytes lie when they follow one another.
proof fn lemma_parts(a: Seq<u8>, b: Seq<u8>, c: Seq<u8>, d: Seq<u8>, e: Seq<u8>)
    ensures
        a + b + c + d + e == a + (b + c + d + e),
        (a + b + c + d + e).skip(a.len() as int) == b + (c + d + e),
        (a + b + c + d + e).subrange((a + b).len() as int, (a + b + c).len() as int) == c,
        (a + b + c + d + e).subrange((a + b + c).len() as int, (a + b + c + d).len() as int) == d,
{
    let s = a + b + c + d + e;
    assert(s =~= a + (b + c + d + e));
    assert(s.skip(a.len() as int) =~= b + (c + d + e));
    assert(s.subrange((a + b).len() as int, (a + b + c).len() as int) =~= c);
    assert(s.subrange((a + b + c).len() as int, (a + b + c + d).len() as int) =~= d);
}

/// Reading a pair gives back the name and value that were written, whatever follows.
pub proof fn law_pair_round_trip(name: Seq<u8>, value: Seq<u8>, rest: Seq<u8>)
    requires
        name.len() <= MAX_PART,
        value.len() <= MAX_PART,
    ensures
        read_pair(pair_bytes(name, value) + rest) == Some(
            (name, value, pair_bytes(name, value).len() as int),
        ),
{
    let ln = len_prefix(name.len() as int);
    let lv = len_prefix(value.len() as int);
    assert forall|t: Seq<u8>| #[trigger]
        read_len(ln + t) == Some((name.len() as int, ln.len() as int)) by {
        lemma_read_len(name.len() as int, t);
    }
    assert forall|t: Seq<u8>| #[trigger]
        read_len(lv + t) == Some((value.len() as int, lv.len() as int)) by {
        lemma_read_len(value.len() as int, t);
    }
    lemma_read_pair(name, value, rest, ln, lv);
}

proof fn lemma_read_pair(
    name: Seq<u8>,
    value: Seq<u8>,
    rest: Seq<u8>,
    ln: Seq<u8>,
    lv: Seq<u8>,
)
    requires
        forall|t: Seq<u8>|
            #[trigger] read_len(ln + t) == Some((name.len() as int, ln.len() as int)),
        forall|t: Seq<u8>|
            #[trigger] read_len(lv + t) == Some((value.len() as int, lv.len() as int)),
    ensures
        read_pair(ln + lv + name + value + rest) == Some(
            (name, value, (ln + lv + name + value).len() as int),
        ),
{
    lemma_parts(ln, lv, name, value, rest);
    assert(read_len(ln + (lv + name + value + rest)) is Some);
    assert(read_len(lv + (name + value + rest)) is Some);
}

/// Reading a list of pairs gives back the names and values that were written, in order.
pub proof fn law_pairs_round_trip(pairs: Seq<(Seq<u8>, Seq<u8>)>)
    requires
        forall|i: int|
            0 <= i < pairs.len() ==> (#[trigger] pairs[i]).0.len() <= MAX_PART
                && pairs[i].1.len() <= MAX_PART,
    ensures
        read_pairs(encode_pairs(pairs)) == Some(pairs),
    decreases pairs.len(),
{
    if pairs.len() > 0 {
        let (name, value) = pairs[0];
        let rest = encode_pairs(pairs.drop_first());
        law_pair_round_trip(name, value, rest);
        lemma_pair_len(name, value);
        law_pairs_round_trip(pairs.drop_first());
        lemma_read_first(pair_bytes(name, value), name, value, rest, pairs.drop_first());
        assert(seq![(name, value)] + pairs.drop_first() =~= pairs);
    }
}

/// Reading a pair and then the others.
proof fn lemma_read_first(
    first: Seq<u8>,
    name: Seq<u8>,
    value: Seq<u8>,
    rest: Seq<u8>,
    others: Seq<(Seq<u8>, Seq<u8>)>,
)
    requires
        first.len() > 0,
        read_pair(first + rest) == Some((name, value, first.len() as int)),
        read_pairs(rest) == Some(others),
    ensures
        read_pairs(first + rest) == Some(seq![(name, value)] + others),
{
    assert((first + rest).skip(first.len() as int) =~= rest);
}

/// Adding a pair to a body adds it to the end of the list of pairs that the body reads as.
pub proof fn law_pairs_push(pairs: Seq<(Seq<u8>, Seq<u8>)>, pair: (Seq<u8>, Seq<u8>))
    ensures
        encode_pairs(pairs.push(pair)) == encode_pairs(pairs) + pair_bytes(pair.0, pair.1),
    decreases pairs.len(),
{
    let more = pairs.push(pair);
    if pairs.len() == 0 {
        assert(more.drop_first() =~= Seq::empty());
        assert(encode_pairs(more.drop_first()) =~= Seq::empty());
        assert(encode_pairs(more) =~= encode_pairs(pairs) + pair_bytes(pair.0, pair.1));
    } else {
        law_pairs_push(pairs.drop_first(), pair);
        assert(more.drop_first() =~= pairs.drop_first().push(pair));
        assert(encode_pairs(more) =~= encode_pairs(pairs) + pair_bytes(pair.0, pair.1));
    }
}

/// Whether the body behind the `j`-th starts with `pair`, for which the `j`-th has no room.
pub open spec fn no_room(
    bodies: Seq<Seq<u8>>,
    j: int,
    pair: (Seq<u8>, Seq<u8>),
) -> bool {
    let bytes = pair_bytes(pair.0, pair.1);
    &&& bytes.is_prefix_of(bodies[j + 1])
    &&& bodies[j].len() + bytes.len() > Body::MAX_LENGTH
}

/// A new body is begun only where it has to be: no body has room for the first pair of the
/// next one.
pub proof fn law_bodies_are_full(
    bodies: Seq<Seq<u8>>,
    pairs: Seq<(Seq<u8>, Seq<u8>)>,
    j: int,
)
    requires
        bodies.len() > 0,
        bodies.len() - 1 <= j < bodies_extend(bodies, pairs).len() - 1,
    ensures
        exists|k: int|
            0 <= k < pairs.len() && no_room(
                bodies_extend(bodies, pairs),
                j,
                #[trigger] pairs[k],
            ),
    decreases pairs.len(),
{
    lemma_bodies_grow(bodies, pairs.drop_last());
    let before = bodies_extend(bodies, pairs.drop_last());
    let after = bodies_extend(bodies, pairs);
    let last = pair_bytes(pairs.last().0, pairs.last().1);
    if j == before.len() - 1 {
        assert(after[j + 1] == last);
        assert(no_room(after, j, pairs[pairs.len() - 1]));
    } else {
        law_bodies_are_full(bodies, pairs.drop_last(), j);
        let k = choose|k: int|
            0 <= k < pairs.drop_last().len() && no_room(
                before,
                j,
                #[trigger] pairs.drop_last()[k],
            );
        let bytes = pair_bytes(pairs[k].0, pairs[k].1);
        assert(pairs.drop_last()[k] == pairs[k]);
        assert(after[j] == before[j]);
        assert(bytes.is_prefix_of(after[j + 1])) by {
            assert(bytes =~= after[j + 1].take(bytes.len() as int));
        }
        assert(no_room(after, j, pairs[k]));
    }
}

proof fn lemma_bodies_grow(bodies: Seq<Seq<u8>>, pairs: Seq<(Seq<u8>, Seq<u8>)>)
    requires
        bodies.len() > 0,
    ensures
        bodies_extend(bodies, pairs).len() >= bodies.len(),
    decreases pairs.len(),
{
    if pairs.len() > 0 {
        lemma_bodies_grow(bodies, pairs.drop_last());
    }
}

/// Two lists of pairs one after the other are written one after the other.
pub proof fn lemma_pairs_concat(a: Seq<(Seq<u8>, Seq<u8>)>, b: Seq<(Seq<u8>, Seq<u8>)>)
    ensures
        encode_pairs(a + b) == encode_pairs(a) + encode_pairs(b),
    decreases b.len(),
{
    if b.len() == 0 {
        assert(a + b =~= a);
        assert(encode_pairs(a) + encode_pairs(b) =~= encode_pairs(a));
    } else {
        let init = b.drop_last();
        let last = b.last();
        lemma_pairs_concat(a, init);
        law_pairs_push(init, last);
        law_pairs_push(a + init, last);
        assert(init.push(last) =~= b);
        assert((a + init).push(last) =~= a + b);
        lemma_assoc(encode_pairs(a), encode_pairs(init), pair_bytes(last.0, last.1));
    }
}

proof fn lemma_bodies_add(bodies: Seq<Seq<u8>>, pair: (Seq<u8>, Seq<u8>))
    requires
        bodies.len() > 0,
    ensures
        bodies_add(bodies, pair).flatten() == bodies.flatten() + pair_bytes(pair.0, pair.1),
{
    let bytes = pair_bytes(pair.0, pair.1);
    if bodies.last().len() + bytes.len() <= Body::MAX_LENGTH {
        let init = bodies.drop_last();
        assert(bodies =~= init.push(bodies.last()));
        init.lemma_flatten_push(bodies.last());
        init.lemma_flatten_push(bodies.last() + bytes);
        lemma_assoc(init.flatten(), bodies.last(), bytes);
    } else {
        bodies.lemma_flatten_push(bytes);
    }
}

/// Spreading pairs over bodies keeps them all, in order and unbroken: the bodies one after
/// the other hold what they held before, then the pairs.
pub proof fn law_bodies_keep_pairs(bodies: Seq<Seq<u8>>, pairs: Seq<(Seq<u8>, Seq<u8>)>)
    requires
        bodies.len() > 0,
    ensures
        bodies_extend(bodies, pairs).len() > 0,
        bodies_extend(bodies, pairs).flatten() == bodies.flatten() + encode_pairs(pairs),
    decreases pairs.len(),
{
    if pairs.len() == 0 {
        assert(bodies.flatten() + encode_pairs(pairs) =~= bodies.flatten());
    } else {
        let init = pairs.drop_last();
        let pair = pairs.last();
        let bytes = pair_bytes(pair.0, pair.1);
        let so_far = bodies_extend(bodies, init);
        law_bodies_keep_pairs(bodies, init);
        law_pairs_push(init, pair);
        assert(init.push(pair) =~= pairs);
        lemma_bodies_add(so_far, pair);
        lemma_assoc(bodies.flatten(), encode_pairs(init), bytes);
    }
}

/// No body outgrows a record.
pub proof fn law_bodies_fit_records(bodies: Seq<Seq<u8>>, pairs: Seq<(Seq<u8>, Seq<u8>)>)
    requires
        bodies.len() > 0,
        forall|i: int| 0 <= i < bodies.len() ==> (#[trigger] bodies[i]).len() <= Body::MAX_LENGTH,
        forall|i: int| 0 <= i < pairs.len() ==> one_record(#[trigger] pairs[i]),
    ensures
        bodies_extend(bodies, pairs).len() > 0,
        forall|i: int|
            0 <= i < bodies_extend(bodies, pairs).len() ==> (#[trigger] bodies_extend(
                bodies,
                pairs,
            )[i]).len() <= Body::MAX_LENGTH,
    decreases pairs.len(),
{
    if pairs.len() > 0 {
        let init = pairs.drop_last();
        assert forall|i: int| 0 <= i < init.len() implies one_record(#[trigger] init[i]) by {
            assert(init[i] == pairs[i]);
        }
        law_bodies_fit_records(bodies, init);
        assert(one_record(pairs[pairs.len() - 1]));
        lemma_pair_len(pairs.last().0, pairs.last().1);
    }
}

} // verus!
