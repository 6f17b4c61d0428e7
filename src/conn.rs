use crate::error::ProtoError;
use crate::params::{entries_map, ParamMap};
use crate::proto::{framing_ok, parse_spec, Framing, ProtoMessage, ProtoParser};
use crate::startup::StartupMessage;
use crate::stream::concat;
use crate::wire::append_bytes;
use std::collections::VecDeque;
use vstd::prelude::*;

verus! {

/// The state that one read-and-parse step works on: framing and carry-over.
pub struct Reader {
    pub framing: Framing,
    pub carry: Seq<u8>,
}

/// The outcome of handing `data` to a reader in state `r`: the buffer it
/// parses (carry, then data), what the parser reports on it, and the state after.
pub open spec fn read_step(r: Reader, data: Seq<u8>) -> (Seq<u8>, crate::proto::Scan, Reader) {
    let buf = r.carry + data;
    let scan = parse_spec(r.framing, buf);
    (buf, scan, Reader { framing: scan.state, carry: buf.skip(scan.consumed as int) })
}

/// Successive reads of `chunks`, while every header is valid: whether all
/// were, the bytes reported parsed in total, the reader state after, and the
/// bytes that the reports covered, read after read (each read's buffer up to
/// its count).
pub open spec fn feed(r: Reader, chunks: Seq<Seq<u8>>) -> (bool, nat, Reader, Seq<u8>)
    decreases chunks.len(),
{
    if chunks.len() == 0 {
        (true, 0, r, seq![])
    } else {
        let (buf, scan, next) = read_step(r, chunks[0]);
        if !scan.valid {
            (false, 0, next, seq![])
        } else {
            let (ok, parsed, last, covered) = feed(next, chunks.drop_first());
            (ok, scan.consumed + parsed, last, buf.take(scan.consumed as int) + covered)
        }
    }
}

/// Over any run of reads in which every header is valid, the bytes reported
/// parsed plus the bytes still carried equal the bytes read (plus any carry
/// the run started with); and the covered bytes are exactly the prefix of
/// that stream of the reported length, in order, none lost or repeated.
pub proof fn lemma_bytes_conserved(r: Reader, chunks: Seq<Seq<u8>>)
    requires
        framing_ok(r.framing),
        feed(r, chunks).0,
    ensures
        feed(r, chunks).1 + feed(r, chunks).2.carry.len() == r.carry.len() + concat(chunks).len(),
        feed(r, chunks).3.len() == feed(r, chunks).1,
        feed(r, chunks).3 + feed(r, chunks).2.carry == r.carry + concat(chunks),
    decreases chunks.len(),
{
    if chunks.len() == 0 {
        assert(r.carry + concat(chunks) =~= r.carry);
        assert(Seq::<u8>::empty() + r.carry =~= r.carry);
    } else {
        let (buf, scan, next) = read_step(r, chunks[0]);
        crate::proto::lemma_parse_in_bounds_any(r.framing, buf);
        lemma_bytes_conserved(next, chunks.drop_first());
        let (ok, parsed, last, covered) = feed(next, chunks.drop_first());
        assert(concat(chunks) =~= chunks[0] + concat(chunks.drop_first()));
        assert(buf.take(scan.consumed as int) + covered + last.carry =~= r.carry + concat(chunks)) by {
            assert(buf.take(scan.consumed as int) + buf.skip(scan.consumed as int) =~= buf);
            assert(buf.take(scan.consumed as int) + (covered + last.carry) =~= buf.take(scan.consumed as int) + covered + last.carry);
        }
    }
}

/// The protocol state of one framed connection: the parser, the last buffer
/// parsed, the bytes carried to the next read, the descriptors not yet
/// consumed, and what the handshake learned.
pub struct PgConnState {
    pub parser: ProtoParser,
    pub incomplete_buffer: Vec<u8>,
    pub buffer: Vec<u8>,
    pub msgs: VecDeque<ProtoMessage>,
    pub is_broken: bool,
    pub is_active_transaction: bool,
    pub server_parameters: ParamMap,
    pub startup_message: Option<StartupMessage>,
    /// Bytes of a startup packet that has not fully arrived yet.
    pub startup_buffer: Vec<u8>,
}

impl PgConnState {
    pub open spec fn reader(&self) -> Reader {
        Reader { framing: self.parser@, carry: self.incomplete_buffer@ }
    }

    /// The parser is consistent and at most four bytes are carried.
    pub open spec fn wf(&self) -> bool {
        &&& self.parser.wf()
        &&& framing_ok(self.parser@)
        &&& self.incomplete_buffer@.len() <= 4
        &&& self.server_parameters.wf()
    }

    pub fn new() -> (c: Self)
        ensures
            c.wf(),
            c.reader() == (Reader { framing: None, carry: Seq::empty() }),
            c.msgs@.len() == 0,
            !c.is_broken,
            !c.is_active_transaction,
            c.server_parameters@.len() == 0,
            c.startup_message is None,
            c.startup_buffer@.len() == 0,
    {
        let c = PgConnState {
            parser: ProtoParser::new(),
            incomplete_buffer: Vec::new(),
            buffer: Vec::new(),
            msgs: VecDeque::new(),
            is_broken: false,
            is_active_transaction: false,
            server_parameters: ParamMap::new(),
            startup_message: None,
            startup_buffer: Vec::new(),
        };
        assert(c.incomplete_buffer@ =~= Seq::<u8>::empty());
        c
    }

    /// Takes the bytes of one read. No bytes means the peer closed: the
    /// connection is marked broken. Otherwise the carried bytes and `data`
    /// form the new buffer, which is parsed; what it cannot frame yet is
    /// carried. Returns the length of the buffer's prefix that the new
    /// descriptors cover, which is what may be relayed.
    pub fn read_and_parse(&mut self, data: &[u8]) -> (r: Result<usize, ProtoError>)
        requires
            old(self).wf(),
        ensures
            final(self).wf(),
            final(self).is_active_transaction == old(self).is_active_transaction,
            final(self).server_parameters == old(self).server_parameters,
            final(self).startup_message == old(self).startup_message,
            data@.len() == 0 ==> {
                &&& r == Err::<usize, ProtoError>(ProtoError::Disconnected)
                &&& final(self).is_broken
                &&& final(self).msgs@ == old(self).msgs@
            },
            data@.len() > 0 ==> {
                let (buf, scan, next) = read_step(old(self).reader(), data@);
                &&& final(self).buffer@ == buf
                &&& final(self).msgs@ == old(self).msgs@ + scan.out
                &&& scan.valid ==> r == Ok::<usize, ProtoError>(scan.consumed as usize)
                    && final(self).reader() == next && final(self).is_broken == old(self).is_broken
                &&& !scan.valid ==> r == Err::<usize, ProtoError>(ProtoError::InvalidFrame)
                    && final(self).is_broken
            },
    {
        if data.len() == 0 {
            self.is_broken = true;
            return Err(ProtoError::Disconnected);
        }
        let mut buf: Vec<u8> = Vec::new();
        append_bytes(&mut buf, self.incomplete_buffer.as_slice());
        append_bytes(&mut buf, data);
        let ghost scan = parse_spec(self.parser@, buf@);
        proof {
            crate::proto::lemma_parse_in_bounds_any(self.parser@, buf@);
        }
        let parsed = self.parser.parse(buf.as_slice(), &mut self.msgs);
        match parsed {
            Ok(n) => {
                let mut rest: Vec<u8> = Vec::new();
                let len = buf.len();
                let mut i: usize = n;
                while i < len
                    invariant
                        n <= i <= len,
                        len == buf@.len(),
                        rest@ == buf@.subrange(n as int, i as int),
                    decreases len - i,
                {
                    rest.push(buf[i]);
                    assert(buf@.subrange(n as int, i + 1) =~= buf@.subrange(n as int, i as int).push(buf@[i as int]));
                    i = i + 1;
                }
                assert(rest@ =~= buf@.skip(n as int));
                self.incomplete_buffer = rest;
                self.buffer = buf;
                Ok(n)
            },
            Err(e) => {
                self.is_broken = true;
                self.buffer = buf;
                Err(e)
            },
        }
    }

    /// The database the client asked for, once its startup message is known.
    pub fn database_name(&self) -> (r: Option<String>)
        ensures
            match self.startup_message {
                Some(sm) => (r is Some <==> sm.parameters.wf() && entries_map(sm.parameters@).contains_key("database"@))
                    && (r matches Some(s) ==> s@ == entries_map(sm.parameters@)["database"@]),
                None => r is None,
            },
    {
        match &self.startup_message {
            Some(sm) => {
                if !sm.parameters.is_sorted() {
                    return None;
                }
                sm.database_name()
            },
            None => None,
        }
    }

    /// Marks a backend as carrying an open transaction, so that the pool
    /// retires it if it comes back before the transaction ends.
    pub fn begin_transaction(&mut self)
        ensures
            final(self).is_active_transaction,
            final(self).is_broken == old(self).is_broken,
            final(self).msgs == old(self).msgs,
            final(self).buffer == old(self).buffer,
    {
        self.is_active_transaction = true;
    }

    /// Whether the pool must close this connection rather than reuse it:
    /// it broke, or it is returned in the middle of a transaction.
    pub fn should_retire(&self) -> (r: bool)
        ensures
            r == (self.is_broken || self.is_active_transaction),
    {
        self.is_broken || self.is_active_transaction
    }
}

/// What a non-blocking read found on an idle connection.
#[derive(Debug, Clone, Copy, PartialEq, Eq)]
pub enum Probe {
    /// Nothing to read: the connection is idle, as it should be.
    WouldBlock,
    /// The read returned this many bytes (zero: the peer closed).
    Bytes(usize),
    /// The read failed.
    Failed,
}

/// Whether an idle connection may be handed out, from what a probe read saw.
pub fn probe_verdict(p: Probe) -> (r: Result<bool, ProtoError>)
    ensures
        match p {
            Probe::WouldBlock => r == Ok::<bool, ProtoError>(true),
            Probe::Bytes(0) => r == Err::<bool, ProtoError>(ProtoError::Closed),
            Probe::Bytes(_) => r == Err::<bool, ProtoError>(ProtoError::Unexpected),
            Probe::Failed => r == Err::<bool, ProtoError>(ProtoError::Closed),
        },
{
    match p {
        Probe::WouldBlock => Ok(true),
        Probe::Bytes(0) => Err(ProtoError::Closed),
        Probe::Bytes(_) => Err(ProtoError::Unexpected),
        Probe::Failed => Err(ProtoError::Closed),
    }
}

} // verus!
