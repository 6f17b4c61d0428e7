use crate::error::ProtoError;
use crate::messages::cstr;
use crate::params::{entries_map, key_lt, sorted_entries, ParamMap};
use crate::proto::ProtoParser;
use crate::wire::{
    lemma_be_round_trip, append_bytes, be_bytes, be_u32_at, first_index_of, lemma_first_index_of, lemma_no_index_of,
    memchr_byte, push_u32_be, read_u32_be, utf8_to_string,
};
use vstd::prelude::*;
use vstd::utf8::{decode_utf8, encode_utf8, encode_utf8_decode_utf8, encode_utf8_valid_utf8, valid_utf8};

verus! {

/// The version word of a request to cancel a running query.
pub const CANCEL_REQUEST_VERSION: i32 = 80877102;

/// The version word of a request to upgrade to TLS.
pub const SSL_REQUEST_VERSION: i32 = 80877103;

/// The protocol version that clients and servers speak (3.0).
pub const PROTOCOL_VERSION_3: i32 = 196608;

/// The first message of a connection: a protocol version and the session
/// parameters (`user`, `database`, ...).
#[derive(Debug, Clone, PartialEq, Eq)]
pub struct StartupMessage {
    pub protocol_version: i32,
    pub parameters: ParamMap,
}

/// What the startup parser recognised.
#[derive(Debug, Clone, PartialEq, Eq)]
pub enum ProtoStartup {
    Message(StartupMessage),
    SSLRequest,
    CancelRequest,
}

/// Where a startup message lies across buffers.
#[derive(Debug, Clone, Copy, PartialEq, Eq)]
pub enum ProtoStartupMessage {
    Partial(usize, usize),
    PartialComplete(usize),
}

/// The unsigned word that carries a signed 32-bit value on the wire.
pub open spec fn i32_word(v: i32) -> u32 {
    if v >= 0 {
        v as u32
    } else {
        (v + 0x1_0000_0000) as u32
    }
}

/// The signed value that an unsigned wire word carries.
pub open spec fn word_i32(w: int) -> i32 {
    if w <= 0x7fff_ffff {
        w as i32
    } else {
        (w - 0x1_0000_0000) as i32
    }
}

fn to_word(v: i32) -> (w: u32)
    ensures
        w == i32_word(v),
{
    if v >= 0 {
        v as u32
    } else {
        (v as i64 + 0x1_0000_0000i64) as u32
    }
}

fn from_word(w: u32) -> (v: i32)
    ensures
        v == word_i32(w as int),
{
    if w <= 0x7fff_ffff {
        w as i32
    } else {
        (w as i64 - 0x1_0000_0000i64) as i32
    }
}

/// The bytes of the parameter list: each name and value NUL-terminated.
pub open spec fn params_bytes(entries: Seq<(Seq<char>, Seq<char>)>) -> Seq<u8>
    decreases entries.len(),
{
    if entries.len() == 0 {
        seq![]
    } else {
        params_bytes(entries.drop_last()) + cstr(encode_utf8(entries.last().0)) + cstr(
            encode_utf8(entries.last().1),
        )
    }
}

/// The wire form of a startup message: total length, version word, the
/// parameter list and a closing NUL.
pub open spec fn startup_bytes(version: i32, entries: Seq<(Seq<char>, Seq<char>)>) -> Seq<u8> {
    be_bytes((params_bytes(entries).len() + 9) as u32) + be_bytes(i32_word(version)) + params_bytes(
        entries,
    ) + seq![0u8]
}

/// Name/value pairs read from a parameter list (without its closing NUL):
/// `None` when a string lacks its NUL, a name is empty, or text is not UTF-8.
#[verifier::opaque]
pub open spec fn pairs_of(r: Seq<u8>) -> Option<Seq<(Seq<char>, Seq<char>)>>
    decreases r.len(),
{
    if r.len() == 0 {
        Some(seq![])
    } else {
        match first_index_of(0, r) {
            None => None,
            Some(i) => {
                if i <= 0 || i >= r.len() {
                    None
                } else {
                    let rest = r.skip(i + 1);
                    match first_index_of(0, rest) {
                        None => None,
                        Some(j) => {
                            if j < 0 || j >= rest.len() {
                                None
                            } else if !valid_utf8(r.take(i)) || !valid_utf8(rest.take(j)) {
                                None
                            } else {
                                match pairs_of(rest.skip(j + 1)) {
                                    None => None,
                                    Some(ps) => Some(
                                        seq![(decode_utf8(r.take(i)), decode_utf8(rest.take(j)))]
                                            + ps,
                                    ),
                                }
                            }
                        },
                    }
                }
            },
        }
    }
}

/// The mapping that inserting `ps` in order into an empty map yields.
pub open spec fn pairs_map(ps: Seq<(Seq<char>, Seq<char>)>) -> Map<Seq<char>, Seq<char>>
    decreases ps.len(),
{
    if ps.len() == 0 {
        Map::empty()
    } else {
        pairs_map(ps.drop_last()).insert(ps.last().0, ps.last().1)
    }
}

/// What a buffer that begins a startup exchange holds.
pub enum StartupKind {
    /// Not yet all of the message: nothing is consumed.
    Incomplete,
    SslRequest,
    CancelRequest,
    /// A regular startup message of `len` bytes.
    Regular { len: nat, version: i32, pairs: Seq<(Seq<char>, Seq<char>)> },
    Invalid,
}

pub open spec fn startup_kind(buf: Seq<u8>) -> StartupKind {
    if buf.len() < 8 {
        StartupKind::Incomplete
    } else {
        let len = be_u32_at(buf, 0);
        let version = word_i32(be_u32_at(buf, 4));
        if version == CANCEL_REQUEST_VERSION && len == 16 {
            if buf.len() < 16 {
                StartupKind::Incomplete
            } else {
                StartupKind::CancelRequest
            }
        } else if version == SSL_REQUEST_VERSION && len == 8 {
            StartupKind::SslRequest
        } else if len < 9 || len > 0x7fff_ffff {
            StartupKind::Invalid
        } else if buf.len() < len {
            StartupKind::Incomplete
        } else if buf[len - 1] != 0 {
            StartupKind::Invalid
        } else {
            match pairs_of(buf.subrange(8, len - 1)) {
                None => StartupKind::Invalid,
                Some(ps) => StartupKind::Regular { len: len as nat, version, pairs: ps },
            }
        }
    }
}

impl StartupMessage {
    pub fn new() -> (m: Self)
        ensures
            m.protocol_version == 0,
            m.parameters.wf(),
            m.parameters@.len() == 0,
    {
        StartupMessage { protocol_version: 0, parameters: ParamMap::new() }
    }

    /// The requested database: the `database` parameter.
    pub fn database_name(&self) -> (r: Option<String>)
        requires
            self.parameters.wf(),
        ensures
            r is Some <==> entries_map(self.parameters@).contains_key("database"@),
            r matches Some(s) ==> s@ == entries_map(self.parameters@)["database"@],
    {
        match self.parameters.get("database") {
            Some(value) => Some(value.clone()),
            None => None,
        }
    }

    /// A copy with the same version and entries.
    pub fn clone_message(&self) -> (r: Self)
        ensures
            r.protocol_version == self.protocol_version,
            r.parameters@ == self.parameters@,
    {
        StartupMessage { protocol_version: self.protocol_version, parameters: self.parameters.cloned() }
    }

    /// The wire form of this message, or `None` when its length does not
    /// fit the length word.
    pub fn to_bytes_checked(&self) -> (r: Option<Vec<u8>>)
        ensures
            r is Some <==> params_bytes(self.parameters@).len() + 9 <= i32::MAX,
            r matches Some(b) ==> b@ == startup_bytes(self.protocol_version, self.parameters@),
    {
        let n = self.parameters.len();
        let mut total: usize = 9;
        for i in 0..n
            invariant
                n == self.parameters@.len(),
                total == params_bytes(self.parameters@.take(i as int)).len() + 9,
                total <= i32::MAX,
        {
            let kl = self.parameters.key_at(i).as_str().as_bytes().len();
            let vl = self.parameters.value_at(i).as_str().as_bytes().len();
            proof {
                let t = self.parameters@.take(i + 1);
                assert(t.last() == self.parameters@[i as int]);
                assert(kl == encode_utf8(self.parameters@[i as int].0).len());
                assert(vl == encode_utf8(self.parameters@[i as int].1).len());
                assert(t.drop_last() =~= self.parameters@.take(i as int));
                assert(params_bytes(t).len() == params_bytes(self.parameters@.take(i as int)).len() + kl + vl + 2);
                lemma_params_bytes_prefix(self.parameters@, i + 1);
            }
            if kl > 0x7fff_fff4 || vl > 0x7fff_fff4 - kl || total > 0x7fff_ffff - (kl + vl + 2) {
                return None;
            }
            total = total + kl + vl + 2;
        }
        assert(self.parameters@.take(n as int) =~= self.parameters@);
        Some(self.as_bytes())
    }

    /// The wire form of this message.
    pub fn as_bytes(&self) -> (r: Vec<u8>)
        requires
            params_bytes(self.parameters@).len() + 9 <= i32::MAX,
        ensures
            r@ == startup_bytes(self.protocol_version, self.parameters@),
    {
        let mut body: Vec<u8> = Vec::new();
        let n = self.parameters.len();
        for i in 0..n
            invariant
                n == self.parameters@.len(),
                body@ == params_bytes(self.parameters@.take(i as int)),
        {
            let key = self.parameters.key_at(i);
            let value = self.parameters.value_at(i);
            append_bytes(&mut body, key.as_str().as_bytes());
            body.push(0);
            append_bytes(&mut body, value.as_str().as_bytes());
            body.push(0);
            proof {
                let t = self.parameters@.take(i + 1);
                assert(t.drop_last() =~= self.parameters@.take(i as int));
                assert(body@ =~= params_bytes(t));
            }
        }
        assert(self.parameters@.take(n as int) =~= self.parameters@);
        body.push(0);
        let mut msg: Vec<u8> = Vec::new();
        push_u32_be(&mut msg, (body.len() + 8) as u32);
        push_u32_be(&mut msg, to_word(self.protocol_version));
        append_bytes(&mut msg, body.as_slice());
        assert(msg@ =~= startup_bytes(self.protocol_version, self.parameters@));
        msg
    }
}


proof fn lemma_pairs_of_step(r: Seq<u8>, i: int, j: int)
    requires
        0 < i < r.len(),
        r[i] == 0,
        forall|k: int| 0 <= k < i ==> r[k] != 0,
        0 <= j < r.skip(i + 1).len(),
        r.skip(i + 1)[j] == 0,
        forall|k: int| 0 <= k < j ==> #[trigger] r.skip(i + 1)[k] != 0,
    ensures
        pairs_of(r) == (if valid_utf8(r.take(i)) && valid_utf8(r.skip(i + 1).take(j)) {
            match pairs_of(r.skip(i + 1).skip(j + 1)) {
                None => None,
                Some(ps) => Some(
                    seq![(decode_utf8(r.take(i)), decode_utf8(r.skip(i + 1).take(j)))] + ps,
                ),
            }
        } else {
            None
        }),
{
    reveal(pairs_of);
    lemma_first_index_of(0, r, i);
    lemma_first_index_of(0, r.skip(i + 1), j);
}

proof fn lemma_prefix_step(
    acc: Seq<(Seq<char>, Seq<char>)>,
    pair: (Seq<char>, Seq<char>),
    tail: Option<Seq<(Seq<char>, Seq<char>)>>,
)
    ensures
        opt_prefix(acc, match tail {
            None => None,
            Some(ps) => Some(seq![pair] + ps),
        }) == opt_prefix(acc.push(pair), tail),
        pairs_map(acc.push(pair)) == pairs_map(acc).insert(pair.0, pair.1),
{
    if let Some(ps) = tail {
        assert(acc + (seq![pair] + ps) =~= acc.push(pair) + ps);
    }
    assert(acc.push(pair).drop_last() =~= acc);
}

proof fn lemma_sorted_push(acc: Seq<(Seq<char>, Seq<char>)>, pair: (Seq<char>, Seq<char>))
    ensures
        sorted_entries(acc.push(pair)) ==> sorted_entries(acc) && forall|a: int|
            0 <= a < acc.len() ==> key_lt(#[trigger] acc[a].0, pair.0),
{
    if sorted_entries(acc.push(pair)) {
        assert forall|a: int, b: int| 0 <= a < b < acc.len() implies #[trigger] key_lt(acc[a].0, acc[b].0) by {
            assert(key_lt(acc.push(pair)[a].0, acc.push(pair)[b].0));
        }
        assert forall|a: int| 0 <= a < acc.len() implies key_lt(#[trigger] acc[a].0, pair.0) by {
            assert(key_lt(acc.push(pair)[a].0, acc.push(pair)[acc.len() as int].0));
        }
    }
}

pub open spec fn opt_prefix(
    acc: Seq<(Seq<char>, Seq<char>)>,
    o: Option<Seq<(Seq<char>, Seq<char>)>>,
) -> Option<Seq<(Seq<char>, Seq<char>)>> {
    match o {
        None => None,
        Some(ps) => Some(acc + ps),
    }
}

impl ProtoParser {
    /// Reads the first message of a connection from the head of `buffer`:
    /// a TLS request, a cancel request or a regular startup message. Returns
    /// the bytes it took and what it found; `(0, None)` asks for more bytes.
    pub fn parse_startup(&mut self, buffer: &[u8]) -> (r: Result<
        (usize, Option<ProtoStartup>),
        ProtoError,
    >)
        ensures
            *final(self) == *old(self),
            match startup_kind(buffer@) {
                StartupKind::Incomplete => r == Ok::<(usize, Option<ProtoStartup>), ProtoError>(
                    (0usize, None),
                ),
                StartupKind::SslRequest => r == Ok::<(usize, Option<ProtoStartup>), ProtoError>(
                    (8usize, Some(ProtoStartup::SSLRequest)),
                ),
                StartupKind::CancelRequest => r == Ok::<(usize, Option<ProtoStartup>), ProtoError>(
                    (16usize, Some(ProtoStartup::CancelRequest)),
                ),
                StartupKind::Invalid => r == Err::<(usize, Option<ProtoStartup>), ProtoError>(
                    ProtoError::InvalidStartup,
                ),
                StartupKind::Regular { len, version, pairs } => {
                    &&& r matches Ok((n, Some(ProtoStartup::Message(m))))
                    &&& n == len
                    &&& m.protocol_version == version
                    &&& m.parameters.wf()
                    &&& entries_map(m.parameters@) == pairs_map(pairs)
                    &&& sorted_entries(pairs) ==> m.parameters@ == pairs
                },
            },
            r matches Ok((n, s)) ==> {
                &&& n <= buffer@.len()
                &&& n < 8 ==> s is None
                &&& s matches Some(ProtoStartup::SSLRequest) ==> n == 8
                &&& s matches Some(ProtoStartup::CancelRequest) ==> n == 16
            },
    {
        let len = buffer.len();
        if len < 8 {
            return Ok((0, None));
        }
        let total = read_u32_be(buffer, 0);
        let version = from_word(read_u32_be(buffer, 4));
        if version == CANCEL_REQUEST_VERSION && total == 16 {
            if len < 16 {
                return Ok((0, None));
            }
            return Ok((16, Some(ProtoStartup::CancelRequest)));
        }
        if version == SSL_REQUEST_VERSION && total == 8 {
            return Ok((8, Some(ProtoStartup::SSLRequest)));
        }
        if total < 9 || total > 0x7fff_ffff {
            return Err(ProtoError::InvalidStartup);
        }
        let total = total as usize;
        if len < total {
            return Ok((0, None));
        }
        if buffer[total - 1] != 0 {
            return Err(ProtoError::InvalidStartup);
        }
        let region = &buffer[8..total - 1];
        let rlen = region.len();
        let mut params = ParamMap::new();
        let mut off: usize = 0;
        let ghost mut acc: Seq<(Seq<char>, Seq<char>)> = seq![];
        assert(region@.skip(0) =~= region@);
        assert(acc + pairs_of(region@).unwrap() =~= pairs_of(region@).unwrap());
        let ghost kind = match pairs_of(region@) {
            None => StartupKind::Invalid,
            Some(ps) => StartupKind::Regular { len: total as nat, version, pairs: ps },
        };
        assert(startup_kind(buffer@) == kind);
        while off < rlen
            invariant
                startup_kind(buffer@) == kind,
                kind == (match pairs_of(region@) {
                    None => StartupKind::Invalid,
                    Some(ps) => StartupKind::Regular { len: total as nat, version, pairs: ps },
                }),
                rlen == region@.len(),
                region@ == buffer@.subrange(8, total - 1),
                off <= rlen,
                params.wf(),
                entries_map(params@) == pairs_map(acc),
                sorted_entries(acc) ==> params@ == acc,
                pairs_of(region@) == opt_prefix(acc, pairs_of(region@.skip(off as int))),
            decreases rlen - off,
        {
            let rest = &region[off..rlen];
            assert(rest@ =~= region@.skip(off as int));
            let i = match memchr_byte(0, rest) {
                None => {
                    proof {
                        lemma_no_index_of(0, rest@);
                        reveal(pairs_of);
                    }
                    return Err(ProtoError::InvalidStartup);
                },
                Some(i) => i,
            };
            proof {
                lemma_first_index_of(0, rest@, i as int);
            }
            if i == 0 {
                proof {
                    reveal(pairs_of);
                }
                return Err(ProtoError::InvalidStartup);
            }
            let after_key = &rest[i + 1..rest.len()];
            assert(after_key@ =~= rest@.skip(i + 1));
            let j = match memchr_byte(0, after_key) {
                None => {
                    proof {
                        lemma_no_index_of(0, after_key@);
                        reveal(pairs_of);
                        assert(rest@.skip(i + 1) =~= after_key@);
                    }
                    return Err(ProtoError::InvalidStartup);
                },
                Some(j) => j,
            };
            proof {
                lemma_first_index_of(0, after_key@, j as int);
            }
            let key_bytes = &rest[0..i];
            let value_bytes = &after_key[0..j];
            assert(key_bytes@ =~= rest@.take(i as int));
            assert(value_bytes@ =~= after_key@.take(j as int));
            proof {
                lemma_pairs_of_step(rest@, i as int, j as int);
            }
            let key = match utf8_to_string(key_bytes) {
                None => return Err(ProtoError::InvalidStartup),
                Some(k) => k,
            };
            let value = match utf8_to_string(value_bytes) {
                None => return Err(ProtoError::InvalidStartup),
                Some(v) => v,
            };
            let ghost pair = (key@, value@);
            let ghost next = off + i + 1 + j + 1;
            proof {
                assert(after_key@.skip(j + 1) =~= region@.skip(next));
                lemma_pairs_of_step(rest@, i as int, j as int);
                lemma_prefix_step(acc, pair, pairs_of(region@.skip(next)));
                lemma_sorted_push(acc, pair);
            }
            params.insert(key, value);
            proof {
                acc = acc.push(pair);
            }
            off = off + i + 1 + j + 1;
        }
        proof {
            assert(region@.skip(off as int) =~= Seq::<u8>::empty());
            reveal(pairs_of);
            assert(acc + Seq::<(Seq<char>, Seq<char>)>::empty() =~= acc);
        }
        let m = StartupMessage { protocol_version: version, parameters: params };
        Ok((total, Some(ProtoStartup::Message(m))))
    }
}


/// Text whose UTF-8 form holds no NUL byte, so that it survives as a C string.
pub open spec fn nul_free(s: Seq<char>) -> bool {
    forall|i: int| 0 <= i < encode_utf8(s).len() ==> #[trigger] encode_utf8(s)[i] != 0
}

/// A startup message that its wire form describes faithfully: names are
/// non-empty, no text holds a NUL, the length fits, entries are in key order,
/// and the packet cannot be taken for a cancel request.
pub open spec fn valid_startup(version: i32, entries: Seq<(Seq<char>, Seq<char>)>) -> bool {
    &&& sorted_entries(entries)
    &&& forall|i: int|
        0 <= i < entries.len() ==> (#[trigger] entries[i]).0.len() > 0 && nul_free(entries[i].0)
            && nul_free(entries[i].1)
    &&& params_bytes(entries).len() + 9 <= i32::MAX
    &&& !(version == CANCEL_REQUEST_VERSION && params_bytes(entries).len() + 9 == 16)
}

proof fn lemma_params_bytes_front(entries: Seq<(Seq<char>, Seq<char>)>)
    requires
        entries.len() > 0,
    ensures
        params_bytes(entries) == cstr(encode_utf8(entries[0].0)) + cstr(encode_utf8(entries[0].1))
            + params_bytes(entries.drop_first()),
    decreases entries.len(),
{
    if entries.len() == 1 {
        assert(entries.drop_last() =~= Seq::<(Seq<char>, Seq<char>)>::empty());
        assert(entries.drop_first() =~= Seq::<(Seq<char>, Seq<char>)>::empty());
        assert(params_bytes(entries) =~= cstr(encode_utf8(entries[0].0)) + cstr(encode_utf8(entries[0].1)) + params_bytes(entries.drop_first()));
    } else {
        let d = entries.drop_last();
        lemma_params_bytes_front(d);
        assert(d.drop_first() =~= entries.drop_first().drop_last());
        assert(entries.drop_first().last() == entries.last());
        assert(d[0] == entries[0]);
        assert(params_bytes(entries) =~= cstr(encode_utf8(entries[0].0)) + cstr(encode_utf8(entries[0].1)) + params_bytes(entries.drop_first()));
    }
}

/// The parameter bytes of a prefix of the entries are no longer than all of them.
proof fn lemma_params_bytes_prefix(entries: Seq<(Seq<char>, Seq<char>)>, k: int)
    requires
        0 <= k <= entries.len(),
    ensures
        params_bytes(entries.take(k)).len() <= params_bytes(entries).len(),
    decreases entries.len() - k,
{
    if k < entries.len() {
        lemma_params_bytes_prefix(entries, k + 1);
        assert(entries.take(k + 1).drop_last() =~= entries.take(k));
    } else {
        assert(entries.take(k) =~= entries);
    }
}

proof fn lemma_encode_nonempty(s: Seq<char>)
    requires
        s.len() > 0,
    ensures
        encode_utf8(s).len() > 0,
{
}

proof fn lemma_pairs_of_params(entries: Seq<(Seq<char>, Seq<char>)>)
    requires
        forall|i: int|
            0 <= i < entries.len() ==> (#[trigger] entries[i]).0.len() > 0 && nul_free(entries[i].0)
                && nul_free(entries[i].1),
    ensures
        pairs_of(params_bytes(entries)) == Some(entries),
    decreases entries.len(),
{
    if entries.len() == 0 {
        reveal(pairs_of);
    } else {
        let k = entries[0].0;
        let v = entries[0].1;
        let ek = encode_utf8(k);
        let ev = encode_utf8(v);
        let tail = entries.drop_first();
        assert forall|i: int| 0 <= i < tail.len() implies (#[trigger] tail[i]).0.len() > 0 && nul_free(tail[i].0) && nul_free(tail[i].1) by {
            assert(tail[i] == entries[i + 1]);
        }
        lemma_pairs_of_params(tail);
        lemma_params_bytes_front(entries);
        let rest = params_bytes(tail);
        let r = params_bytes(entries);
        assert(entries[0].0.len() > 0 && nul_free(k) && nul_free(v));
        lemma_encode_nonempty(k);
        let i = ek.len() as int;
        assert(r[i] == 0);
        assert forall|x: int| 0 <= x < i implies r[x] != 0 by {
            assert(r[x] == ek[x]);
        }
        assert(r.skip(i + 1) =~= cstr(ev) + rest);
        let j = ev.len() as int;
        assert(r.skip(i + 1)[j] == 0);
        assert forall|x: int| 0 <= x < j implies #[trigger] r.skip(i + 1)[x] != 0 by {
            assert(r.skip(i + 1)[x] == ev[x]);
        }
        assert(r.take(i) =~= ek);
        assert(r.skip(i + 1).take(j) =~= ev);
        assert(r.skip(i + 1).skip(j + 1) =~= rest);
        lemma_pairs_of_step(r, i, j);
        encode_utf8_valid_utf8(k);
        encode_utf8_valid_utf8(v);
        encode_utf8_decode_utf8(k);
        encode_utf8_decode_utf8(v);
        assert(seq![(k, v)] + tail =~= entries);
    }
}

/// Encoding a valid startup message and parsing the bytes gives the message
/// back: the same version and the same entries, in the same key order.
pub proof fn lemma_startup_round_trip(version: i32, entries: Seq<(Seq<char>, Seq<char>)>)
    requires
        valid_startup(version, entries),
    ensures
        startup_kind(startup_bytes(version, entries)) == (StartupKind::Regular {
            len: startup_bytes(version, entries).len(),
            version,
            pairs: entries,
        }),
{
    let p = params_bytes(entries);
    let total = (p.len() + 9) as u32;
    let b = startup_bytes(version, entries);
    lemma_be_round_trip(total);
    lemma_be_round_trip(i32_word(version));
    assert(b.subrange(0, 4) =~= be_bytes(total));
    assert(b.subrange(4, 8) =~= be_bytes(i32_word(version)));
    assert(b[0] == be_bytes(total)[0] && b[1] == be_bytes(total)[1] && b[2] == be_bytes(total)[2] && b[3] == be_bytes(total)[3]);
    assert(b[4] == be_bytes(i32_word(version))[0] && b[5] == be_bytes(i32_word(version))[1] && b[6] == be_bytes(i32_word(version))[2] && b[7] == be_bytes(i32_word(version))[3]);
    assert(be_u32_at(b, 0) == total);
    assert(be_u32_at(b, 4) == i32_word(version));
    assert(word_i32(i32_word(version) as int) == version);
    assert(b.len() == total);
    assert(b[total - 1] == 0);
    assert(b.subrange(8, total - 1) =~= p);
    lemma_pairs_of_params(entries);
}

} // verus!
