use crate::error::ProtoError;
use crate::wire::{
    be_u32_at, first_index_of, lemma_first_index_of, lemma_no_index_of, memchr_byte, read_u32_be,
    tag_char, utf8_to_string,
};
use std::collections::VecDeque;
use vstd::prelude::*;
use vstd::utf8::{decode_utf8, valid_utf8};

pub use crate::startup::{ProtoStartup, ProtoStartupMessage, StartupMessage};

verus! {

/// Where one framed message lies in the buffer it was parsed from.
#[derive(Debug, Clone, Copy, PartialEq, Eq, Structural)]
pub enum ProtoMessage {
    /// Tag and whole payload lie in this buffer: `(tag, start, end)`, `end` inclusive.
    Message(char, usize, usize),
    /// The message starts at `start` and runs to `end`, the last byte of this buffer.
    Partial(char, usize, usize),
    /// The message began in an earlier buffer and ends at `end` in this one.
    PartialComplete(char, usize),
}

/// The framing state between two buffers: idle, or inside a message with the
/// given tag byte and that many bytes still to come.
pub type Framing = Option<(u8, nat)>;

/// What one call of the frame scanner yields: whether every header was valid,
/// the framing state after it, the descriptors, and the bytes they cover.
pub struct Scan {
    pub valid: bool,
    pub state: Framing,
    pub out: Seq<ProtoMessage>,
    pub consumed: nat,
}

/// The largest length a frame header may declare.
pub const MAX_FRAME_LEN: u32 = 0x7fff_ffff;

/// The tag of the frame that starts at `off`.
pub open spec fn tag_at(buf: Seq<u8>, off: int) -> char {
    buf[off] as char
}

/// The length that the frame starting at `off` declares (it counts itself).
pub open spec fn declared_len(buf: Seq<u8>, off: int) -> int {
    be_u32_at(buf, off + 1)
}

/// A scan with `m` reported before everything else it reports.
pub open spec fn prepend(m: ProtoMessage, s: Scan) -> Scan {
    Scan { out: seq![m] + s.out, ..s }
}

/// Frames read from `off` onwards, at a frame boundary, until fewer than five
/// bytes (a tag and a length) remain or a frame runs past the end.
pub open spec fn frames(buf: Seq<u8>, off: nat) -> Scan
    decreases buf.len() - off,
{
    if off + 5 > buf.len() {
        Scan { valid: true, state: None, out: seq![], consumed: off }
    } else {
        let len = declared_len(buf, off as int);
        let tag = tag_at(buf, off as int);
        if len < 4 || len > MAX_FRAME_LEN {
            Scan { valid: false, state: None, out: seq![], consumed: off }
        } else if off + 1 + len <= buf.len() {
            prepend(
                ProtoMessage::Message(tag, off as usize, (off + len) as usize),
                frames(buf, (off + 1 + len) as nat),
            )
        } else {
            Scan {
                valid: true,
                state: Some((buf[off as int], (len - (buf.len() - off - 1)) as nat)),
                out: seq![ProtoMessage::Partial(tag, off as usize, (buf.len() - 1) as usize)],
                consumed: buf.len(),
            }
        }
    }
}

/// One call of `parse` from framing state `st` on buffer `buf`.
pub open spec fn parse_spec(st: Framing, buf: Seq<u8>) -> Scan {
    if buf.len() < 5 {
        Scan { valid: true, state: st, out: seq![], consumed: 0 }
    } else {
        match st {
            None => frames(buf, 0),
            Some((tag, rem)) => if rem <= buf.len() {
                prepend(ProtoMessage::PartialComplete(tag as char, (rem - 1) as usize), frames(buf, rem))
            } else {
                Scan {
                    valid: true,
                    state: Some((tag, (rem - buf.len()) as nat)),
                    out: seq![ProtoMessage::Partial(tag as char, 0, (buf.len() - 1) as usize)],
                    consumed: buf.len(),
                }
            },
        }
    }
}

/// The byte range a descriptor names lies inside a buffer of `len` bytes.
pub open spec fn in_buffer(m: ProtoMessage, len: nat) -> bool {
    match m {
        ProtoMessage::Message(_, s, e) => s <= e < len,
        ProtoMessage::Partial(_, s, e) => s <= e < len,
        ProtoMessage::PartialComplete(_, e) => e < len,
    }
}

/// A framing state that a parser can be in: a pending frame has bytes to come.
pub open spec fn framing_ok(st: Framing) -> bool {
    st matches Some((_, rem)) ==> rem > 0
}

proof fn lemma_frames_in_bounds(buf: Seq<u8>, off: nat)
    requires
        buf.len() <= usize::MAX,
    ensures
        forall|i: int| 0 <= i < frames(buf, off).out.len() ==> in_buffer(#[trigger] frames(buf, off).out[i], buf.len()),
        framing_ok(frames(buf, off).state),
        off <= buf.len() ==> frames(buf, off).consumed <= buf.len(),
        off <= buf.len() && frames(buf, off).valid ==> buf.len() - frames(buf, off).consumed <= 4,
    decreases buf.len() - off,
{
    if off + 5 <= buf.len() {
        let len = declared_len(buf, off as int);
        if 4 <= len <= MAX_FRAME_LEN && off + 1 + len <= buf.len() {
            let next = (off + 1 + len) as nat;
            lemma_frames_in_bounds(buf, next);
            let r = frames(buf, off);
            assert forall|i: int| 0 <= i < r.out.len() implies in_buffer(#[trigger] r.out[i], buf.len()) by {
                if i > 0 {
                    assert(r.out[i] == frames(buf, next).out[i - 1]);
                }
            }
        }
    }
}

/// No descriptor that `parse` reports names a byte outside its buffer.
pub proof fn lemma_parse_in_bounds(st: Framing, buf: Seq<u8>)
    requires
        framing_ok(st),
        buf.len() <= usize::MAX,
    ensures
        forall|i: int| 0 <= i < parse_spec(st, buf).out.len() ==> in_buffer(#[trigger] parse_spec(st, buf).out[i], buf.len()),
        framing_ok(parse_spec(st, buf).state),
        parse_spec(st, buf).consumed <= buf.len(),
        parse_spec(st, buf).valid ==> buf.len() - parse_spec(st, buf).consumed <= 4,
{
    if buf.len() >= 5 {
        match st {
            None => lemma_frames_in_bounds(buf, 0),
            Some((tag, rem)) => {
                if rem <= buf.len() {
                    lemma_frames_in_bounds(buf, rem);
                    let r = parse_spec(st, buf);
                    assert(r == prepend(ProtoMessage::PartialComplete(tag as char, (rem - 1) as usize), frames(buf, rem)));
                    assert forall|i: int| 0 <= i < r.out.len() implies in_buffer(#[trigger] r.out[i], buf.len()) by {
                        if i > 0 {
                            assert(r.out[i] == frames(buf, rem).out[i - 1]);
                        }
                    }
                }
            },
        }
    }
}

/// The same bounds, for a buffer of any size.
pub proof fn lemma_parse_in_bounds_any(st: Framing, buf: Seq<u8>)
    requires
        framing_ok(st),
    ensures
        framing_ok(parse_spec(st, buf).state),
        parse_spec(st, buf).consumed <= buf.len(),
        parse_spec(st, buf).valid ==> buf.len() - parse_spec(st, buf).consumed <= 4,
{
    if buf.len() <= usize::MAX {
        lemma_parse_in_bounds(st, buf);
    } else {
        lemma_parse_counts(st, buf);
    }
}

proof fn lemma_frames_counts(buf: Seq<u8>, off: nat)
    ensures
        framing_ok(frames(buf, off).state),
        off <= buf.len() ==> frames(buf, off).consumed <= buf.len(),
        off <= buf.len() && frames(buf, off).valid ==> buf.len() - frames(buf, off).consumed <= 4,
    decreases buf.len() - off,
{
    if off + 5 <= buf.len() {
        let len = declared_len(buf, off as int);
        if 4 <= len <= MAX_FRAME_LEN && off + 1 + len <= buf.len() {
            lemma_frames_counts(buf, (off + 1 + len) as nat);
        }
    }
}

proof fn lemma_parse_counts(st: Framing, buf: Seq<u8>)
    requires
        framing_ok(st),
    ensures
        framing_ok(parse_spec(st, buf).state),
        parse_spec(st, buf).consumed <= buf.len(),
        parse_spec(st, buf).valid ==> buf.len() - parse_spec(st, buf).consumed <= 4,
{
    if buf.len() >= 5 {
        match st {
            None => lemma_frames_counts(buf, 0),
            Some((tag, rem)) => {
                if rem <= buf.len() {
                    lemma_frames_counts(buf, rem);
                }
            },
        }
    }
}

/// A streaming parser for post-startup frames. It owns no buffer: it reports
/// byte ranges of the caller's buffer and remembers a frame left unfinished.
pub struct ProtoParser {
    current_msg_type: Option<u8>,
    current_msg_length: usize,
    current_msg_bytes_read: usize,
}

impl View for ProtoParser {
    type V = Framing;

    closed spec fn view(&self) -> Framing {
        match self.current_msg_type {
            Some(t) => Some((t, (self.current_msg_length - self.current_msg_bytes_read) as nat)),
            None => None,
        }
    }
}

impl ProtoParser {
    /// Inside a frame, some of it is still to come and its length was valid.
    pub closed spec fn wf(&self) -> bool {
        match self.current_msg_type {
            Some(_) => self.current_msg_bytes_read < self.current_msg_length
                && self.current_msg_length <= MAX_FRAME_LEN,
            None => self.current_msg_length == 0 && self.current_msg_bytes_read == 0,
        }
    }

    pub fn new() -> (p: Self)
        ensures
            p.wf(),
            framing_ok(p@),
            p@ == None::<(u8, nat)>,
    {
        ProtoParser { current_msg_type: None, current_msg_length: 0, current_msg_bytes_read: 0 }
    }

    /// The length word at the head of `buffer`, when it holds four bytes.
    pub fn msg_size(buffer: &[u8]) -> (r: Option<usize>)
        ensures
            buffer@.len() < 4 ==> r is None,
            buffer@.len() >= 4 ==> r == Some(be_u32_at(buffer@, 0) as usize),
    {
        if buffer.len() < 4 {
            return None;
        }
        Some(read_u32_be(buffer, 0) as usize)
    }

    fn msg_complete(&mut self)
        ensures
            final(self).wf(),
            final(self)@ == None::<(u8, nat)>,
    {
        self.current_msg_type = None;
        self.current_msg_length = 0;
        self.current_msg_bytes_read = 0;
    }

    /// Scans `buffer` from its start, appends a descriptor for each frame or
    /// piece of a frame found, and returns the bytes those descriptors cover.
    /// Bytes past that count are the caller's to present again, at the head
    /// of the next buffer.
    pub fn parse(&mut self, buffer: &[u8], msgs: &mut VecDeque<ProtoMessage>) -> (r: Result<
        usize,
        ProtoError,
    >)
        requires
            old(self).wf(),
        ensures
            final(self).wf(),
            framing_ok(old(self)@),
            framing_ok(final(self)@),
            final(msgs)@ == old(msgs)@ + parse_spec(old(self)@, buffer@).out,
            forall|i: int|
                0 <= i < parse_spec(old(self)@, buffer@).out.len() ==> in_buffer(
                    #[trigger] parse_spec(old(self)@, buffer@).out[i],
                    buffer@.len(),
                ),
            buffer@.len() < 5 ==> r == Ok::<usize, ProtoError>(0) && final(msgs)@ == old(msgs)@,
            parse_spec(old(self)@, buffer@).valid ==> r == Ok::<usize, ProtoError>(
                parse_spec(old(self)@, buffer@).consumed as usize,
            ) && final(self)@ == parse_spec(old(self)@, buffer@).state,
            !parse_spec(old(self)@, buffer@).valid ==> r == Err::<usize, ProtoError>(
                ProtoError::InvalidFrame,
            ) && final(self)@ == None::<(u8, nat)>,
    {
        let len = buffer.len();
        proof {
            lemma_parse_in_bounds(old(self)@, buffer@);
        }
        if len < 5 {
            return Ok(0);
        }
        let ghost target = parse_spec(old(self)@, buffer@);
        let mut offset: usize = 0;
        let ghost mut acc: Seq<ProtoMessage> = seq![];
        let current = self.current_msg_type;
        if let Some(tag_byte) = current {
            let tag = tag_char(tag_byte);
            let remaining = self.current_msg_length - self.current_msg_bytes_read;
            assert(old(self)@ == Some((tag_byte, remaining as nat)));
            if remaining <= len {
                let m = ProtoMessage::PartialComplete(tag, remaining - 1);
                msgs.push_back(m);
                proof {
                    acc = acc.push(m);
                }
                assert(msgs@ =~= old(msgs)@ + acc);
                offset = remaining;
                self.msg_complete();
            } else {
                msgs.push_back(ProtoMessage::Partial(tag, 0, len - 1));
                self.current_msg_bytes_read = self.current_msg_bytes_read + len;
                assert(target.out =~= seq![ProtoMessage::Partial(tag, 0, (len - 1) as usize)]);
                return Ok(len);
            }
        } else {
            assert(msgs@ =~= old(msgs)@ + acc);
        }
        assert(target.out =~= acc + frames(buffer@, offset as nat).out);
        while len - offset >= 5
            invariant
                len == buffer@.len(),
                offset <= len,
                target == parse_spec(old(self)@, buffer@),
                framing_ok(old(self)@),
                forall|i: int| 0 <= i < target.out.len() ==> in_buffer(#[trigger] target.out[i], buffer@.len()),
                self.wf(),
                self@ == None::<(u8, nat)>,
                msgs@ == old(msgs)@ + acc,
                target.out == acc + frames(buffer@, offset as nat).out,
                target.valid == frames(buffer@, offset as nat).valid,
                target.state == frames(buffer@, offset as nat).state,
                target.consumed == frames(buffer@, offset as nat).consumed,
            decreases len - offset,
        {
            let ghost rest = frames(buffer@, offset as nat);
            let tag_byte = buffer[offset];
            let tag = tag_char(tag_byte);
            let declared = read_u32_be(buffer, offset + 1);
            if declared < 4 || declared > MAX_FRAME_LEN {
                assert(acc + rest.out =~= acc);
                return Err(ProtoError::InvalidFrame);
            }
            let declared = declared as usize;
            if declared <= len - offset - 1 {
                let m = ProtoMessage::Message(tag, offset, offset + declared);
                msgs.push_back(m);
                proof {
                    let next = frames(buffer@, (offset + 1 + declared) as nat);
                    assert(rest == prepend(m, next));
                    assert(acc + (seq![m] + next.out) =~= acc.push(m) + next.out);
                    acc = acc.push(m);
                }
                offset = offset + 1 + declared;
            } else {
                let m = ProtoMessage::Partial(tag, offset, len - 1);
                msgs.push_back(m);
                self.current_msg_type = Some(tag_byte);
                self.current_msg_length = declared;
                self.current_msg_bytes_read = len - offset - 1;
                proof {
                    assert(acc + rest.out =~= acc.push(m));
                    acc = acc.push(m);
                }
                return Ok(len);
            }
        }
        proof {
            assert(acc + frames(buffer@, offset as nat).out =~= acc);
        }
        Ok(offset)
    }
}


/// An authentication request from a backend.
#[derive(Debug, PartialEq, Clone)]
pub enum ProtoAuth<'a> {
    AuthOk,
    /// MD5 challenge with its four-byte salt.
    AuthMD5Password(&'a [u8]),
    AuthCleartextPassword,
}

/// The authentication code of an `AuthenticationRequest`.
pub const AUTH_OK: u32 = 0;
pub const AUTH_CLEARTEXT: u32 = 3;
pub const AUTH_MD5: u32 = 5;

/// The name and value of a `ParameterStatus` body: two NUL-terminated texts.
pub open spec fn cstr_pair(body: Seq<u8>) -> Option<(Seq<char>, Seq<char>)> {
    match first_index_of(0, body) {
        None => None,
        Some(i) => match first_index_of(0, body.skip(i + 1)) {
            None => None,
            Some(j) => if valid_utf8(body.take(i)) && valid_utf8(body.skip(i + 1).take(j)) {
                Some((decode_utf8(body.take(i)), decode_utf8(body.skip(i + 1).take(j))))
            } else {
                None
            },
        },
    }
}

/// What an `AuthenticationRequest` asks for.
pub enum AuthRequest {
    Accepted,
    Cleartext,
    Md5 { salt: Seq<u8> },
}

/// The status byte of a whole `ReadyForQuery` in `buf`.
pub open spec fn ready_status(m: ProtoMessage, buf: Seq<u8>) -> Option<char> {
    if m.is_whole('Z', buf.len()) && m->Message_2 - m->Message_1 == 5 {
        Some(buf[m->Message_1 + 5] as char)
    } else {
        None
    }
}

/// The request of a whole `AuthenticationRequest` in `buf`.
pub open spec fn auth_request(m: ProtoMessage, buf: Seq<u8>) -> Option<AuthRequest> {
    let start = m->Message_1 as int;
    let end = m->Message_2 as int;
    let code = be_u32_at(buf, start + 5);
    if m.is_whole('R', buf.len()) && end - start >= 8 {
        if code == AUTH_OK {
            Some(AuthRequest::Accepted)
        } else if code == AUTH_CLEARTEXT {
            Some(AuthRequest::Cleartext)
        } else if code == AUTH_MD5 && end - start >= 12 {
            Some(AuthRequest::Md5 { salt: buf.subrange(start + 9, start + 13) })
        } else {
            None
        }
    } else {
        None
    }
}

/// The text of a whole `ErrorResponse` in `buf`: `None` for another message,
/// `Some(None)` when the text is not UTF-8.
pub open spec fn error_text(m: ProtoMessage, buf: Seq<u8>) -> Option<Option<Seq<char>>> {
    let start = m->Message_1 as int;
    let end = m->Message_2 as int;
    let text = buf.subrange(start + 6, end);
    if m.is_whole('E', buf.len()) && end - start >= 6 {
        if buf[start + 6] == 0 {
            Some(Some(Seq::empty()))
        } else if valid_utf8(text) {
            Some(Some(decode_utf8(text)))
        } else {
            Some(None)
        }
    } else {
        None
    }
}

/// The name and value of a whole `ParameterStatus` in `buf`.
pub open spec fn param_status(m: ProtoMessage, buf: Seq<u8>) -> Option<(Seq<char>, Seq<char>)> {
    let start = m->Message_1 as int;
    let end = m->Message_2 as int;
    if m.is_whole('S', buf.len()) && end - start >= 4 {
        cstr_pair(buf.subrange(start + 5, end + 1))
    } else {
        None
    }
}

impl ProtoMessage {
    pub open spec fn tag(&self) -> char {
        match *self {
            ProtoMessage::Message(t, _, _) => t,
            ProtoMessage::Partial(t, _, _) => t,
            ProtoMessage::PartialComplete(t, _) => t,
        }
    }

    /// A whole message with tag `t` whose bytes lie in a buffer of `len` bytes.
    pub open spec fn is_whole(&self, t: char, len: nat) -> bool {
        &&& self is Message
        &&& self->Message_0 == t
        &&& self->Message_1 <= self->Message_2
        &&& self->Message_2 < len
    }

    pub fn is_complete(&self) -> (r: bool)
        ensures
            r == (self is Message),
    {
        if let ProtoMessage::Message(_, _, _) = self {
            true
        } else {
            false
        }
    }

    pub fn is_partial(&self) -> (r: bool)
        ensures
            r == !(self is Message),
    {
        !self.is_complete()
    }

    pub fn msg_type(&self) -> (r: char)
        ensures
            r == self.tag(),
    {
        match self {
            ProtoMessage::Message(msg_type, _, _) => *msg_type,
            ProtoMessage::Partial(msg_type, _, _) => *msg_type,
            ProtoMessage::PartialComplete(msg_type, _) => *msg_type,
        }
    }

    /// The status byte of a whole `ReadyForQuery` (`'Z'`, length 5).
    pub fn transaction_type(&self, buffer: &[u8]) -> (r: Option<char>)
        ensures
            r == ready_status(*self, buffer@),
    {
        if let ProtoMessage::Message(t, start, end) = self {
            if *t == 'Z' && *start <= *end && *end < buffer.len() && *end - *start == 5 {
                return Some(tag_char(buffer[*start + 5]));
            }
        }
        None
    }

    /// The request of a whole `AuthenticationRequest` (`'R'`): ok, cleartext,
    /// or MD5 with its salt; `None` for a shorter message or another code.
    pub fn authentication_type<'a>(&self, buffer: &'a [u8]) -> (r: Option<ProtoAuth<'a>>)
        ensures
            match auth_request(*self, buffer@) {
                None => r is None,
                Some(AuthRequest::Accepted) => r == Some(ProtoAuth::AuthOk),
                Some(AuthRequest::Cleartext) => r == Some(ProtoAuth::AuthCleartextPassword),
                Some(AuthRequest::Md5 { salt }) => r matches Some(ProtoAuth::AuthMD5Password(s))
                    && s@ == salt,
            },
    {
        if let ProtoMessage::Message(t, start, end) = self {
            if *t == 'R' && *start <= *end && *end < buffer.len() && *end - *start >= 8 {
                let code = read_u32_be(buffer, *start + 5);
                if code == AUTH_OK {
                    return Some(ProtoAuth::AuthOk);
                } else if code == AUTH_CLEARTEXT {
                    return Some(ProtoAuth::AuthCleartextPassword);
                } else if code == AUTH_MD5 && *end - *start >= 12 {
                    return Some(ProtoAuth::AuthMD5Password(&buffer[*start + 9..*start + 13]));
                }
            }
        }
        None
    }

    /// The text of a whole `ErrorResponse` (`'E'`): the fields after the
    /// first field-type byte, up to the closing NUL.
    pub fn error_message(&self, buffer: &[u8]) -> (r: Result<Option<String>, ProtoError>)
        ensures
            match error_text(*self, buffer@) {
                None => r == Ok::<Option<String>, ProtoError>(None),
                Some(None) => r == Err::<Option<String>, ProtoError>(ProtoError::InvalidText),
                Some(Some(t)) => r matches Ok(Some(s)) && s@ == t,
            },
    {
        if let ProtoMessage::Message(t, start, end) = self {
            if *t == 'E' && *start <= *end && *end < buffer.len() && *end - *start >= 6 {
                if buffer[*start + 6] == 0 {
                    return Ok(Some(String::new()));
                }
                return match utf8_to_string(&buffer[*start + 6..*end]) {
                    Some(s) => Ok(Some(s)),
                    None => Err(ProtoError::InvalidText),
                };
            }
        }
        Ok(None)
    }

    /// The name and value of a whole `ParameterStatus` (`'S'`).
    pub fn server_parameter(&self, buffer: &[u8]) -> (r: Option<(String, String)>)
        ensures
            match param_status(*self, buffer@) {
                None => r is None,
                Some((k, v)) => r matches Some((rk, rv)) && rk@ == k && rv@ == v,
            },
    {
        if let ProtoMessage::Message(t, start, end) = self {
            if *t == 'S' && *start <= *end && *end < buffer.len() && *end - *start >= 4 {
                let body = &buffer[*start + 5..*end + 1];
                let i = match memchr_byte(0, body) {
                    Some(i) => i,
                    None => {
                        proof {
                            lemma_no_index_of(0, body@);
                        }
                        return None;
                    },
                };
                proof {
                    lemma_first_index_of(0, body@, i as int);
                }
                let rest = &body[i + 1..body.len()];
                assert(rest@ =~= body@.skip(i + 1));
                let j = match memchr_byte(0, rest) {
                    Some(j) => j,
                    None => {
                        proof {
                            lemma_no_index_of(0, rest@);
                        }
                        return None;
                    },
                };
                proof {
                    lemma_first_index_of(0, rest@, j as int);
                }
                let kb = &body[0..i];
                let vb = &rest[0..j];
                assert(kb@ =~= body@.take(i as int));
                assert(vb@ =~= rest@.take(j as int));
                let key = match utf8_to_string(kb) {
                    Some(k) => k,
                    None => return None,
                };
                let value = match utf8_to_string(vb) {
                    Some(v) => v,
                    None => return None,
                };
                return Some((key, value));
            }
        }
        None
    }
}

} // verus!
