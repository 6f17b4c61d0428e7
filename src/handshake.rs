use crate::config::Database;
use crate::conn::PgConnState;
use crate::error::ProtoError;
use crate::messages::{
    password_cleartext, password_md5, password_md5_spec, password_message_spec, server_parameter,
    server_parameter_spec,
};
use crate::params::{entries_map, ParamMap};
use crate::proto::{
    auth_request, error_text, param_status, ready_status, AuthRequest, ProtoAuth,
};
use crate::startup::{pairs_map, startup_kind, ProtoStartup, StartupKind, StartupMessage};
use crate::wire::append_bytes;
use vstd::prelude::*;
use vstd::utf8::encode_utf8;

verus! {

/// Where the client side of the startup exchange stands.
#[derive(Debug, Clone, Copy, PartialEq, Eq, Structural)]
pub enum ClientPhase {
    /// Waiting for the client's first packet.
    AwaitStartup,
    /// TLS was refused; waiting for the startup message proper.
    AwaitPostSslStartup,
}

/// What to do after a client packet during startup.
pub enum ClientStartupStep {
    /// The packet has not fully arrived: read again.
    NeedMore,
    /// Send these bytes to the client and read again.
    Reply(Vec<u8>),
    /// The client's startup message: authenticate it and get it ready.
    Accepted(StartupMessage),
    /// Close the connection.
    Failed(ProtoError),
}

/// The single byte that refuses a TLS upgrade.
pub const SSL_DENIED: u8 = 0x4e;

/// Handles one read from a connecting client. The bytes join any part of a
/// startup packet already held. A packet not yet complete is kept for the
/// next read. A TLS request is refused once and the exchange goes on in
/// clear; a cancel request, a second TLS request, or a malformed or
/// database-less packet ends it. A startup message is kept in `conn` and
/// returned; bytes a client sends after it, before any reply, are dropped.
pub fn client_startup_step(phase: &mut ClientPhase, conn: &mut PgConnState, data: &[u8]) -> (r:
    ClientStartupStep)
    ensures
        final(conn).msgs == old(conn).msgs,
        final(conn).is_broken == old(conn).is_broken,
        final(conn).is_active_transaction == old(conn).is_active_transaction,
        final(conn).server_parameters == old(conn).server_parameters,
        final(conn).parser == old(conn).parser,
        final(conn).incomplete_buffer == old(conn).incomplete_buffer,
        final(conn).buffer == old(conn).buffer,
        old(conn).wf() ==> final(conn).wf(),
        data@.len() == 0 ==> (r matches ClientStartupStep::Failed(ProtoError::Disconnected)
            && *final(phase) == *old(phase)),
        data@.len() > 0 ==> ({
            let buf = old(conn).startup_buffer@ + data@;
            match startup_kind(buf) {
                StartupKind::Incomplete => r is NeedMore && final(conn).startup_buffer@ == buf
                    && *final(phase) == *old(phase),
                StartupKind::SslRequest => if *old(phase) == ClientPhase::AwaitStartup {
                    &&& r matches ClientStartupStep::Reply(b)
                    &&& b@ == seq![SSL_DENIED]
                    &&& *final(phase) == ClientPhase::AwaitPostSslStartup
                    &&& final(conn).startup_buffer@ == buf.skip(8)
                } else {
                    r matches ClientStartupStep::Failed(ProtoError::InvalidStartup)
                },
                StartupKind::CancelRequest => r matches ClientStartupStep::Failed(
                    ProtoError::Unsupported,
                ),
                StartupKind::Invalid => r matches ClientStartupStep::Failed(
                    ProtoError::InvalidStartup,
                ),
                StartupKind::Regular { len, version, pairs } => if pairs_map(pairs).contains_key(
                    "database"@,
                ) {
                    &&& r matches ClientStartupStep::Accepted(m)
                    &&& m.protocol_version == version
                    &&& m.parameters.wf()
                    &&& entries_map(m.parameters@) == pairs_map(pairs)
                    &&& final(conn).startup_message matches Some(sm)
                    &&& sm.protocol_version == version
                    &&& sm.parameters@ == m.parameters@
                    &&& final(conn).startup_buffer@.len() == 0
                } else {
                    r matches ClientStartupStep::Failed(ProtoError::InvalidStartup)
                },
            }
        }),
{
    if data.len() == 0 {
        return ClientStartupStep::Failed(ProtoError::Disconnected);
    }
    let mut buf: Vec<u8> = Vec::new();
    append_bytes(&mut buf, conn.startup_buffer.as_slice());
    append_bytes(&mut buf, data);
    conn.startup_buffer = Vec::new();
    let parsed = conn.parser.parse_startup(buf.as_slice());
    match parsed {
        Err(e) => ClientStartupStep::Failed(e),
        Ok((_, None)) => {
            conn.startup_buffer = buf;
            ClientStartupStep::NeedMore
        },
        Ok((_, Some(ProtoStartup::SSLRequest))) => {
            if *phase == ClientPhase::AwaitStartup {
                *phase = ClientPhase::AwaitPostSslStartup;
                let mut rest: Vec<u8> = Vec::new();
                append_bytes(&mut rest, &buf.as_slice()[8..buf.len()]);
                assert(rest@ =~= buf@.skip(8));
                conn.startup_buffer = rest;
                let reply: Vec<u8> = vec![SSL_DENIED];
                ClientStartupStep::Reply(reply)
            } else {
                ClientStartupStep::Failed(ProtoError::InvalidStartup)
            }
        },
        Ok((_, Some(ProtoStartup::CancelRequest))) => ClientStartupStep::Failed(
            ProtoError::Unsupported,
        ),
        Ok((_, Some(ProtoStartup::Message(m)))) => {
            match m.database_name() {
                None => ClientStartupStep::Failed(ProtoError::InvalidStartup),
                Some(_) => {
                    conn.startup_message = Some(m.clone_message());
                    ClientStartupStep::Accepted(m)
                },
            }
        },
    }
}

/// The bytes of a run of `ParameterStatus` messages, one per entry.
pub open spec fn status_bytes(entries: Seq<(Seq<char>, Seq<char>)>) -> Seq<u8>
    decreases entries.len(),
{
    if entries.len() == 0 {
        seq![]
    } else {
        status_bytes(entries.drop_last()) + server_parameter_spec(
            encode_utf8(entries.last().0),
            encode_utf8(entries.last().1),
        )
    }
}

/// Every entry fits in one `ParameterStatus` frame.
pub open spec fn statuses_fit(entries: Seq<(Seq<char>, Seq<char>)>) -> bool {
    forall|i: int|
        0 <= i < entries.len() ==> encode_utf8((#[trigger] entries[i]).0).len() + encode_utf8(
            entries[i].1,
        ).len() + 6 <= i32::MAX
}

/// The `ParameterStatus` messages that tell a client the server's
/// parameters, in key order; `None` if one cannot be framed.
pub fn server_parameters_payload(params: &ParamMap) -> (r: Option<Vec<u8>>)
    ensures
        r is Some <==> statuses_fit(params@),
        r matches Some(b) ==> b@ == status_bytes(params@),
{
    let mut payload: Vec<u8> = Vec::new();
    let n = params.len();
    for i in 0..n
        invariant
            n == params@.len(),
            payload@ == status_bytes(params@.take(i as int)),
            statuses_fit(params@.take(i as int)),
    {
        let key = params.key_at(i);
        let value = params.value_at(i);
        let kl = key.as_str().as_bytes().len();
        let vl = value.as_str().as_bytes().len();
        if kl > 0x7fff_fff9 || vl > 0x7fff_fff9 - kl {
            proof {
                assert(params@[i as int].0 == key@);
                assert(!(encode_utf8(params@[i as int].0).len() + encode_utf8(params@[i as int].1).len() + 6 <= i32::MAX));
            }
            return None;
        }
        let msg = server_parameter(key.as_str(), value.as_str());
        append_bytes(&mut payload, msg.as_slice());
        proof {
            let t = params@.take(i + 1);
            assert(t.drop_last() =~= params@.take(i as int));
            assert(statuses_fit(t)) by {
                assert forall|j: int| 0 <= j < t.len() implies encode_utf8((#[trigger] t[j]).0).len() + encode_utf8(t[j].1).len() + 6 <= i32::MAX by {
                    if j < i {
                        assert(t[j] == params@.take(i as int)[j]);
                    }
                }
            }
        }
    }
    assert(params@.take(n as int) =~= params@);
    Some(payload)
}

/// What the backend side of a handshake does after one message.
pub enum HandshakeStep {
    /// No message is queued: read more from the backend.
    NeedMore,
    /// Nothing to send; handle the next message.
    Continue,
    /// Send these bytes (a password message) to the backend.
    Send(Vec<u8>),
    /// The backend is idle and ready: the connection can be pooled.
    Ready,
    /// The handshake failed.
    Failed(ProtoError),
}

/// Handles the next queued message of a backend that is being connected:
/// an ErrorResponse ends the handshake with its text (empty when the text is
/// not UTF-8), authentication requests are answered with the
/// configured password, parameter reports are stored, and an idle
/// `ReadyForQuery` completes it.
pub fn server_handshake_step(conn: &mut PgConnState, db: &Database) -> (r: HandshakeStep)
    requires
        old(conn).server_parameters.wf(),
    ensures
        final(conn).buffer == old(conn).buffer,
        final(conn).parser == old(conn).parser,
        final(conn).incomplete_buffer == old(conn).incomplete_buffer,
        final(conn).is_active_transaction == old(conn).is_active_transaction,
        final(conn).server_parameters.wf(),
        old(conn).wf() ==> final(conn).wf(),
        final(conn).startup_message == old(conn).startup_message,
        final(conn).is_broken == old(conn).is_broken,
        old(conn).msgs@.len() == 0 ==> r is NeedMore && final(conn).msgs@ == old(conn).msgs@,
        old(conn).msgs@.len() > 0 ==> {
            let m = old(conn).msgs@[0];
            let buf = old(conn).buffer@;
            &&& final(conn).msgs@ == old(conn).msgs@.drop_first()
            &&& !(m.tag() == 'S' && param_status(m, buf) is Some) ==> final(conn).server_parameters
                == old(conn).server_parameters
            &&& m.tag() == 'E' ==> match error_text(m, buf) {
                Some(None) => r matches HandshakeStep::Failed(ProtoError::UpstreamError(s))
                    && s@.len() == 0,
                Some(Some(t)) => r matches HandshakeStep::Failed(ProtoError::UpstreamError(s))
                    && s@ == t,
                None => r matches HandshakeStep::Failed(ProtoError::UpstreamError(s)) && s@.len()
                    == 0,
            }
            &&& m.tag() == 'R' ==> match auth_request(m, buf) {
                None => r matches HandshakeStep::Failed(ProtoError::UnsupportedAuth),
                Some(AuthRequest::Accepted) => r is Continue,
                Some(AuthRequest::Cleartext) => match db.password {
                    None => r matches HandshakeStep::Failed(ProtoError::MissingPassword),
                    Some(p) => if encode_utf8(p@).len() + 5 <= i32::MAX {
                        r matches HandshakeStep::Send(b) && b@ == password_message_spec(
                            encode_utf8(p@),
                        )
                    } else {
                        r matches HandshakeStep::Failed(ProtoError::InvalidFrame)
                    },
                },
                Some(AuthRequest::Md5 { salt }) => match db.password {
                    None => r matches HandshakeStep::Failed(ProtoError::MissingPassword),
                    Some(p) => r matches HandshakeStep::Send(b) && b@ == password_md5_spec(
                        encode_utf8(db.user@),
                        encode_utf8(p@),
                        salt,
                    ),
                },
            }
            &&& m.tag() == 'Z' ==> if ready_status(m, buf) == Some('I') {
                r is Ready
            } else {
                r is Continue
            }
            &&& m.tag() == 'S' ==> (r is Continue && match param_status(m, buf) {
                None => true,
                Some((k, v)) => entries_map(final(conn).server_parameters@) == entries_map(
                    old(conn).server_parameters@,
                ).insert(k, v),
            })
            &&& m.tag() != 'E' && m.tag() != 'R' && m.tag() != 'Z' && m.tag() != 'S' ==> r is Continue
        },
{
    let m = match conn.msgs.pop_front() {
        None => return HandshakeStep::NeedMore,
        Some(m) => m,
    };
    let tag = m.msg_type();
    if tag == 'E' {
        return match m.error_message(conn.buffer.as_slice()) {
            Ok(Some(s)) => HandshakeStep::Failed(ProtoError::UpstreamError(s)),
            Ok(None) => HandshakeStep::Failed(ProtoError::UpstreamError(String::new())),
            Err(_) => HandshakeStep::Failed(ProtoError::UpstreamError(String::new())),
        };
    }
    if tag == 'R' {
        return match m.authentication_type(conn.buffer.as_slice()) {
            None => HandshakeStep::Failed(ProtoError::UnsupportedAuth),
            Some(ProtoAuth::AuthOk) => HandshakeStep::Continue,
            Some(ProtoAuth::AuthCleartextPassword) => match &db.password {
                None => HandshakeStep::Failed(ProtoError::MissingPassword),
                Some(p) => {
                    if p.as_str().as_bytes().len() > 0x7fff_fffa {
                        HandshakeStep::Failed(ProtoError::InvalidFrame)
                    } else {
                        HandshakeStep::Send(password_cleartext(p.as_str()))
                    }
                },
            },
            Some(ProtoAuth::AuthMD5Password(salt)) => match &db.password {
                None => HandshakeStep::Failed(ProtoError::MissingPassword),
                Some(p) => HandshakeStep::Send(password_md5(db.user.as_str(), p.as_str(), salt)),
            },
        };
    }
    if tag == 'Z' {
        return match m.transaction_type(conn.buffer.as_slice()) {
            Some('I') => HandshakeStep::Ready,
            _ => HandshakeStep::Continue,
        };
    }
    if tag == 'S' {
        if let Some((key, value)) = m.server_parameter(conn.buffer.as_slice()) {
            conn.server_parameters.insert(key, value);
        }
        return HandshakeStep::Continue;
    }
    HandshakeStep::Continue
}

} // verus!
