use crate::conn::PgConnState;
use crate::error::ProtoError;
use crate::proto::{ready_status, ProtoMessage};
use vstd::prelude::*;

verus! {

/// Seconds allowed for the write that opens a transaction on a backend.
pub const FIRST_WRITE_TIMEOUT_SECS: u64 = 5;

/// Seconds allowed for each later client-to-backend write in a transaction.
pub const RELAY_WRITE_TIMEOUT_SECS: u64 = 30;

/// What the client sent at an idle point, judged from its descriptors.
pub enum IdleVerdict {
    /// Only queries: a transaction begins.
    Queries,
    /// A terminate before anything else but queries.
    Terminate,
    /// Some other message before any terminate.
    Violation,
}

pub open spec fn idle_verdict(ms: Seq<ProtoMessage>) -> IdleVerdict
    decreases ms.len(),
{
    if ms.len() == 0 {
        IdleVerdict::Queries
    } else if ms[0].tag() == 'Q' {
        idle_verdict(ms.drop_first())
    } else if ms[0].tag() == 'X' {
        IdleVerdict::Terminate
    } else {
        IdleVerdict::Violation
    }
}

/// What happened while a session was idle.
pub enum IdleEvent {
    /// The process is shutting down.
    Shutdown,
    /// The client connection was read and parsed.
    ClientRead(Result<usize, ProtoError>),
}

/// What an idle session does next.
pub enum IdleStep {
    /// End the session cleanly.
    Exit,
    /// Keep waiting for the client.
    Wait,
    /// Check out a backend, mark it in a transaction and forward the first
    /// `n` bytes of the client buffer to it.
    Begin(usize),
    /// End the session with this error.
    Failed(ProtoError),
}

/// Decides what an idle session does after one wait.
pub fn idle_step(client: &mut PgConnState, event: IdleEvent) -> (r: IdleStep)
    ensures
        final(client).buffer == old(client).buffer,
        final(client).is_broken == old(client).is_broken,
        final(client).is_active_transaction == old(client).is_active_transaction,
        final(client).parser == old(client).parser,
        final(client).incomplete_buffer == old(client).incomplete_buffer,
        final(client).server_parameters == old(client).server_parameters,
        old(client).wf() ==> final(client).wf(),
        match event {
            IdleEvent::Shutdown => r is Exit && final(client).msgs@ == old(client).msgs@,
            IdleEvent::ClientRead(Err(e)) => r matches IdleStep::Failed(f) && f == e,
            IdleEvent::ClientRead(Ok(n)) => if old(client).msgs@.len() == 0 {
                r is Wait && final(client).msgs@ == old(client).msgs@
            } else {
                match idle_verdict(old(client).msgs@) {
                    IdleVerdict::Queries => r matches IdleStep::Begin(k) && k == n
                        && final(client).msgs@.len() == 0,
                    IdleVerdict::Terminate => r is Exit,
                    IdleVerdict::Violation => r matches IdleStep::Failed(
                        ProtoError::ProtocolViolation,
                    ),
                }
            },
        },
{
    match event {
        IdleEvent::Shutdown => IdleStep::Exit,
        IdleEvent::ClientRead(Err(e)) => IdleStep::Failed(e),
        IdleEvent::ClientRead(Ok(n)) => {
            if client.msgs.len() == 0 {
                return IdleStep::Wait;
            }
            let ghost start = client.msgs@;
            while client.msgs.len() > 0
                invariant
                    idle_verdict(start) == idle_verdict(client.msgs@),
                    start == old(client).msgs@,
                    start.len() > 0,
                    event == IdleEvent::ClientRead(Ok(n)),
                    client.buffer == old(client).buffer,
                    client.is_broken == old(client).is_broken,
                    client.is_active_transaction == old(client).is_active_transaction,
                    client.parser == old(client).parser,
                    client.incomplete_buffer == old(client).incomplete_buffer,
                    client.server_parameters == old(client).server_parameters,
                decreases client.msgs@.len(),
            {
                let ghost before = client.msgs@;
                let m = client.msgs.pop_front().unwrap();
                assert(before[0] == m);
                let tag = m.msg_type();
                if tag == 'X' {
                    assert(idle_verdict(before) is Terminate);
                    return IdleStep::Exit;
                }
                if tag != 'Q' {
                    assert(idle_verdict(before) is Violation);
                    return IdleStep::Failed(ProtoError::ProtocolViolation);
                }
                assert(before.drop_first() =~= client.msgs@);
            }
            IdleStep::Begin(n)
        },
    }
}

/// How a batch of backend messages bears on the transaction: an idle
/// `ReadyForQuery` ends it, a terminate seen first closes the session.
pub enum ServerVerdict {
    Continue,
    Complete,
    Closed,
}

pub open spec fn server_verdict(ms: Seq<ProtoMessage>, buf: Seq<u8>) -> ServerVerdict
    decreases ms.len(),
{
    if ms.len() == 0 {
        ServerVerdict::Continue
    } else if ms[0].tag() == 'Z' && ready_status(ms[0], buf) == Some('I') {
        ServerVerdict::Complete
    } else if ms[0].tag() == 'X' {
        ServerVerdict::Closed
    } else {
        server_verdict(ms.drop_first(), buf)
    }
}

/// The client sent a terminate among these descriptors.
pub open spec fn client_terminates(ms: Seq<ProtoMessage>) -> bool {
    exists|i: int| 0 <= i < ms.len() && (#[trigger] ms[i]).tag() == 'X'
}

/// Which side won the race of reads inside a transaction.
pub enum TxnEvent {
    ClientRead(Result<usize, ProtoError>),
    ServerRead(Result<usize, ProtoError>),
}

/// Bytes to relay: a prefix of the reading side's buffer.
pub enum Relay {
    /// The first `n` bytes of the client buffer, to the backend (timed).
    ToServer(usize),
    /// The first `n` bytes of the backend buffer, to the client (untimed).
    ToClient(usize),
}

/// How the transaction goes on after the relay.
pub enum TxnVerdict {
    Continue,
    /// The backend is idle again: return it to the pool.
    Complete,
    Failed(ProtoError),
}

pub struct TxnStep {
    pub relay: Option<Relay>,
    pub verdict: TxnVerdict,
}

/// Decides one round of a transaction: what to relay from the side that was
/// read, and, from that side's descriptors, whether the transaction ends.
pub fn transaction_step(client: &mut PgConnState, server: &mut PgConnState, event: TxnEvent) -> (r:
    TxnStep)
    ensures
        final(client).buffer == old(client).buffer,
        final(server).buffer == old(server).buffer,
        final(client).is_active_transaction == old(client).is_active_transaction,
        final(server).is_broken == old(server).is_broken,
        final(client).parser == old(client).parser,
        final(client).incomplete_buffer == old(client).incomplete_buffer,
        final(client).server_parameters == old(client).server_parameters,
        old(client).wf() ==> final(client).wf(),
        final(server).parser == old(server).parser,
        final(server).incomplete_buffer == old(server).incomplete_buffer,
        final(server).server_parameters == old(server).server_parameters,
        old(server).wf() ==> final(server).wf(),
        match event {
            TxnEvent::ClientRead(Err(e)) => r.relay is None && (r.verdict matches TxnVerdict::Failed(f) && f == e),
            TxnEvent::ServerRead(Err(e)) => r.relay is None && (r.verdict matches TxnVerdict::Failed(f) && f == e),
            TxnEvent::ClientRead(Ok(n)) => {
                &&& r.relay matches Some(Relay::ToServer(k)) && k == n
                &&& final(client).msgs@.len() == 0
                &&& *final(server) == *old(server)
                &&& if client_terminates(old(client).msgs@) {
                    r.verdict matches TxnVerdict::Failed(ProtoError::Disconnected)
                } else {
                    r.verdict is Continue
                }
            },
            TxnEvent::ServerRead(Ok(n)) => {
                &&& r.relay matches Some(Relay::ToClient(k)) && k == n
                &&& final(server).msgs@.len() == 0
                &&& *final(client) == *old(client)
                &&& match server_verdict(old(server).msgs@, old(server).buffer@) {
                    ServerVerdict::Continue => r.verdict is Continue
                        && final(server).is_active_transaction == old(server).is_active_transaction,
                    ServerVerdict::Complete => r.verdict is Complete
                        && !final(server).is_active_transaction,
                    ServerVerdict::Closed => r.verdict matches TxnVerdict::Failed(
                        ProtoError::Disconnected,
                    ) && final(server).is_active_transaction == old(server).is_active_transaction,
                }
            },
        },
{
    match event {
        TxnEvent::ClientRead(Err(e)) => TxnStep { relay: None, verdict: TxnVerdict::Failed(e) },
        TxnEvent::ServerRead(Err(e)) => TxnStep { relay: None, verdict: TxnVerdict::Failed(e) },
        TxnEvent::ClientRead(Ok(n)) => {
            let ghost start = client.msgs@;
            let mut closing = false;
            while client.msgs.len() > 0
                invariant
                    client_terminates(start) == (closing || client_terminates(client.msgs@)),
                    start == old(client).msgs@,
                    event == TxnEvent::ClientRead(Ok(n)),
                    *server == *old(server),
                    client.buffer == old(client).buffer,
                    client.is_active_transaction == old(client).is_active_transaction,
                    client.parser == old(client).parser,
                    client.incomplete_buffer == old(client).incomplete_buffer,
                    client.server_parameters == old(client).server_parameters,
                decreases client.msgs@.len(),
            {
                let ghost before = client.msgs@;
                let m = client.msgs.pop_front().unwrap();
                if m.msg_type() == 'X' {
                    closing = true;
                }
                proof {
                    if client_terminates(before) && !closing {
                        let i = choose|i: int| 0 <= i < before.len() && (#[trigger] before[i]).tag() == 'X';
                        assert(client.msgs@[i - 1] == before[i]);
                    }
                    if client_terminates(client.msgs@) {
                        let i = choose|i: int| 0 <= i < client.msgs@.len() && (#[trigger] client.msgs@[i]).tag() == 'X';
                        assert(before[i + 1] == client.msgs@[i]);
                    }
                }
            }
            let verdict = if closing {
                TxnVerdict::Failed(ProtoError::Disconnected)
            } else {
                TxnVerdict::Continue
            };
            TxnStep { relay: Some(Relay::ToServer(n)), verdict }
        },
        TxnEvent::ServerRead(Ok(n)) => {
            let ghost start = server.msgs@;
            let mut verdict = TxnVerdict::Continue;
            let mut decided = false;
            while server.msgs.len() > 0 && !decided
                invariant
                    start == old(server).msgs@,
                    event == TxnEvent::ServerRead(Ok(n)),
                    *client == *old(client),
                    server.buffer == old(server).buffer,
                    server.is_broken == old(server).is_broken,
                    server.is_active_transaction == old(server).is_active_transaction,
                    server.server_parameters == old(server).server_parameters,
                    server.parser == old(server).parser,
                    server.incomplete_buffer == old(server).incomplete_buffer,
                    !decided ==> server_verdict(start, server.buffer@) == server_verdict(server.msgs@, server.buffer@),
                    decided ==> match server_verdict(start, server.buffer@) {
                        ServerVerdict::Complete => verdict is Complete,
                        ServerVerdict::Closed => verdict matches TxnVerdict::Failed(ProtoError::Disconnected),
                        ServerVerdict::Continue => false,
                    },
                    !decided ==> verdict is Continue,
                decreases server.msgs@.len(),
            {
                let m = server.msgs.pop_front().unwrap();
                let tag = m.msg_type();
                if tag == 'Z' {
                    if let Some('I') = m.transaction_type(server.buffer.as_slice()) {
                        verdict = TxnVerdict::Complete;
                        decided = true;
                    }
                } else if tag == 'X' {
                    verdict = TxnVerdict::Failed(ProtoError::Disconnected);
                    decided = true;
                }
            }
            server.msgs.clear();
            if decided {
                if let TxnVerdict::Complete = verdict {
                    server.is_active_transaction = false;
                }
            }
            TxnStep { relay: Some(Relay::ToClient(n)), verdict }
        },
    }
}

} // verus!
