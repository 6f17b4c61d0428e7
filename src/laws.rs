use crate::conn::{read_step, Reader};
use crate::proto::{declared_len, frames, parse_spec, Framing, ProtoMessage, MAX_FRAME_LEN};
use crate::stream::concat;
use vstd::prelude::*;

verus! {

/// `f` is one whole frame: its declared length is valid and covers the rest of it.
pub open spec fn whole_frame(f: Seq<u8>) -> bool {
    &&& f.len() >= 5
    &&& declared_len(f, 0) == f.len() - 1
    &&& declared_len(f, 0) <= MAX_FRAME_LEN
}

/// An idle reader given one whole frame followed by at most four bytes
/// reports exactly that frame, covers its bytes, and carries the rest.
pub proof fn lemma_frame_then_short_tail(f: Seq<u8>, tail: Seq<u8>)
    requires
        whole_frame(f),
        tail.len() <= 4,
        f.len() + tail.len() <= usize::MAX,
    ensures
        ({
            let (buf, scan, next) = read_step(Reader { framing: None, carry: Seq::empty() }, f + tail);
            &&& scan.valid
            &&& scan.out == seq![ProtoMessage::Message(f[0] as char, 0, (f.len() - 1) as usize)]
            &&& scan.consumed == f.len()
            &&& next.framing is None
            &&& next.carry == tail
        }),
{
    let buf = Seq::<u8>::empty() + (f + tail);
    assert(buf =~= f + tail);
    assert(declared_len(buf, 0) == declared_len(f, 0));
    assert(buf[0] == f[0]);
    let rest = frames(buf, f.len());
    assert(rest.out =~= Seq::<ProtoMessage>::empty());
    assert(seq![ProtoMessage::Message(f[0] as char, 0, (f.len() - 1) as usize)] + rest.out =~= seq![ProtoMessage::Message(f[0] as char, 0, (f.len() - 1) as usize)]);
    assert(buf.skip(f.len() as int) =~= tail);
}

/// A frame that arrives in two reads, each of at least five bytes, is
/// reported as one head covering the first read and one tail covering the
/// second, and the two cover the frame exactly.
pub proof fn lemma_frame_over_two_reads(f: Seq<u8>, k: int)
    requires
        whole_frame(f),
        5 <= k,
        f.len() - k >= 5,
        f.len() <= usize::MAX,
    ensures
        ({
            let (buf1, scan1, next1) = read_step(Reader { framing: None, carry: Seq::empty() }, f.take(k));
            let (buf2, scan2, next2) = read_step(next1, f.skip(k));
            &&& scan1.valid && scan2.valid
            &&& scan1.out == seq![ProtoMessage::Partial(f[0] as char, 0, (k - 1) as usize)]
            &&& scan2.out == seq![ProtoMessage::PartialComplete(f[0] as char, (f.len() - k - 1) as usize)]
            &&& scan1.consumed + scan2.consumed == f.len()
            &&& next2.framing is None
            &&& next2.carry.len() == 0
        }),
{
    let b1 = Seq::<u8>::empty() + f.take(k);
    assert(b1 =~= f.take(k));
    assert(declared_len(b1, 0) == declared_len(f, 0));
    assert(b1[0] == f[0]);
    let s1 = frames(b1, 0);
    assert(b1.skip(k) =~= Seq::<u8>::empty());
    let next1 = Reader { framing: s1.state, carry: b1.skip(s1.consumed as int) };
    assert(next1.carry =~= Seq::<u8>::empty());
    let b2 = next1.carry + f.skip(k);
    assert(b2 =~= f.skip(k));
    let rem = (f.len() - k) as nat;
    assert(s1.state == Some((f[0], rem)));
    let rest = frames(b2, rem);
    assert(rest.out =~= Seq::<ProtoMessage>::empty());
    let s2 = parse_spec(next1.framing, b2);
    assert(s2.out =~= seq![ProtoMessage::PartialComplete(f[0] as char, (f.len() - k - 1) as usize)]);
    assert(b2.skip(s2.consumed as int) =~= Seq::<u8>::empty());
}

/// The descriptors that reading `chunks` one at a time reports, each read
/// after the bytes carried from the one before, and the framing state and
/// carry at the end.
pub open spec fn reads_out(st: Framing, carry: Seq<u8>, chunks: Seq<Seq<u8>>) -> (Seq<ProtoMessage>, Framing, Seq<u8>)
    decreases chunks.len(),
{
    if chunks.len() == 0 {
        (seq![], st, carry)
    } else {
        let buf = carry + chunks[0];
        let scan = parse_spec(st, buf);
        let rest = reads_out(scan.state, buf.skip(scan.consumed as int), chunks.drop_first());
        (scan.out + rest.0, rest.1, rest.2)
    }
}

/// The length of the first buffer that holds at least five bytes (or of all
/// the bytes, if none does), when `held` bytes are already carried.
pub open spec fn first_buffer_len(chunks: Seq<Seq<u8>>, held: nat) -> nat
    decreases chunks.len(),
{
    if chunks.len() == 0 {
        held
    } else if held + chunks[0].len() >= 5 {
        held + chunks[0].len()
    } else {
        first_buffer_len(chunks.drop_first(), held + chunks[0].len())
    }
}

/// A head piece with `tag` that starts at its buffer's first byte.
pub open spec fn is_head(m: ProtoMessage, tag: char) -> bool {
    m matches ProtoMessage::Partial(t, s, _) && t == tag && s == 0
}

/// A tail piece with `tag`.
pub open spec fn is_tail(m: ProtoMessage, tag: char) -> bool {
    m matches ProtoMessage::PartialComplete(t, _) && t == tag
}

/// Pieces of one frame: heads starting at the buffer start, the first of
/// them at the frame's first byte, then exactly one tail, all with `tag`.
pub open spec fn pieces(ms: Seq<ProtoMessage>, tag: char) -> bool {
    &&& ms.len() >= 2
    &&& forall|i: int| 0 <= i < ms.len() - 1 ==> is_head(#[trigger] ms[i], tag)
    &&& is_tail(ms.last(), tag)
}

/// Heads at buffer starts, then one tail, all with `tag`.
pub open spec fn tail_pieces(ms: Seq<ProtoMessage>, tag: char) -> bool {
    &&& ms.len() >= 1
    &&& forall|i: int| 0 <= i < ms.len() - 1 ==> is_head(#[trigger] ms[i], tag)
    &&& is_tail(ms.last(), tag)
}

proof fn lemma_reads_empty(chunks: Seq<Seq<u8>>)
    requires
        concat(chunks).len() == 0,
    ensures
        reads_out(None, seq![], chunks) == (Seq::<ProtoMessage>::empty(), None::<(u8, nat)>, Seq::<u8>::empty()),
    decreases chunks.len(),
{
    if chunks.len() > 0 {
        assert(concat(chunks) =~= chunks[0] + concat(chunks.drop_first()));
        let buf = Seq::<u8>::empty() + chunks[0];
        assert(buf =~= Seq::<u8>::empty());
        assert(buf.skip(0) =~= Seq::<u8>::empty());
        lemma_reads_empty(chunks.drop_first());
        assert(parse_spec(None, buf).out + Seq::<ProtoMessage>::empty() =~= Seq::<ProtoMessage>::empty());
    }
}

proof fn lemma_reads_pending(tag: u8, rem: nat, carry: Seq<u8>, chunks: Seq<Seq<u8>>)
    requires
        rem >= 1,
        carry.len() < 5,
        carry.len() + concat(chunks).len() == rem,
        rem <= usize::MAX,
        reads_out(Some((tag, rem)), carry, chunks).1 is None || reads_out(Some((tag, rem)), carry, chunks).2.len() == 0,
    ensures
        tail_pieces(reads_out(Some((tag, rem)), carry, chunks).0, tag as char),
        reads_out(Some((tag, rem)), carry, chunks).1 is None,
        reads_out(Some((tag, rem)), carry, chunks).2.len() == 0,
    decreases chunks.len(),
{
    let st: Framing = Some((tag, rem));
    if chunks.len() == 0 {
        assert(false);
    } else {
        assert(concat(chunks) =~= chunks[0] + concat(chunks.drop_first()));
        let rest_chunks = chunks.drop_first();
        let buf = carry + chunks[0];
        let scan = parse_spec(st, buf);
        if buf.len() < 5 {
            assert(scan.out =~= Seq::<ProtoMessage>::empty());
            assert(buf.skip(0) =~= buf);
            lemma_reads_pending(tag, rem, buf, rest_chunks);
            assert(scan.out + reads_out(st, buf, rest_chunks).0 =~= reads_out(st, buf, rest_chunks).0);
        } else if rem <= buf.len() {
            assert(buf.len() == rem);
            let pc = ProtoMessage::PartialComplete(tag as char, (rem - 1) as usize);
            assert(frames(buf, rem).out =~= Seq::<ProtoMessage>::empty());
            assert(scan.out =~= seq![pc]);
            assert(buf.skip(rem as int) =~= Seq::<u8>::empty());
            lemma_reads_empty(rest_chunks);
            assert(seq![pc] + Seq::<ProtoMessage>::empty() =~= seq![pc]);
        } else {
            let p = ProtoMessage::Partial(tag as char, 0, (buf.len() - 1) as usize);
            assert(scan.out =~= seq![p]);
            assert(buf.skip(buf.len() as int) =~= Seq::<u8>::empty());
            let rem2 = (rem - buf.len()) as nat;
            lemma_reads_pending(tag, rem2, Seq::<u8>::empty(), rest_chunks);
            let tail = reads_out(Some((tag, rem2)), Seq::<u8>::empty(), rest_chunks).0;
            let all = seq![p] + tail;
            assert forall|i: int| 0 <= i < all.len() - 1 implies is_head(#[trigger] all[i], tag as char) by {
                if i > 0 {
                    assert(all[i] == tail[i - 1]);
                }
            }
            assert(all.last() == tail.last());
        }
    }
}

proof fn lemma_reads_idle(f: Seq<u8>, carry: Seq<u8>, chunks: Seq<Seq<u8>>)
    requires
        whole_frame(f),
        f.len() <= usize::MAX,
        carry.len() < 5,
        carry + concat(chunks) == f,
        first_buffer_len(chunks, carry.len()) < f.len(),
        reads_out(None, carry, chunks).1 is None || reads_out(None, carry, chunks).2.len() == 0,
    ensures
        pieces(reads_out(None, carry, chunks).0, f[0] as char),
    decreases chunks.len(),
{
    if chunks.len() == 0 {
        assert(carry == f);
        assert(false);
    } else {
        assert(concat(chunks) =~= chunks[0] + concat(chunks.drop_first()));
        let rest_chunks = chunks.drop_first();
        let buf = carry + chunks[0];
        assert(carry + concat(chunks) =~= buf + concat(rest_chunks));
        let scan = parse_spec(None, buf);
        if buf.len() < 5 {
            assert(scan.out =~= Seq::<ProtoMessage>::empty());
            assert(buf.skip(0) =~= buf);
            lemma_reads_idle(f, buf, rest_chunks);
            assert(scan.out + reads_out(None, buf, rest_chunks).0 =~= reads_out(None, buf, rest_chunks).0);
        } else {
            assert(buf.len() < f.len());
            assert(buf =~= f.take(buf.len() as int));
            assert(declared_len(buf, 0) == declared_len(f, 0));
            assert(buf[0] == f[0]);
            let p = ProtoMessage::Partial(f[0] as char, 0, (buf.len() - 1) as usize);
            assert(scan.out =~= seq![p]);
            assert(buf.skip(buf.len() as int) =~= Seq::<u8>::empty());
            let rem = (f.len() - buf.len()) as nat;
            assert(scan.state == Some((f[0], rem)));
            assert(Seq::<u8>::empty() + concat(rest_chunks) =~= concat(rest_chunks));
            lemma_reads_pending(f[0], rem, Seq::<u8>::empty(), rest_chunks);
            let tail = reads_out(Some((f[0], rem)), Seq::<u8>::empty(), rest_chunks).0;
            let all = seq![p] + tail;
            assert forall|i: int| 0 <= i < all.len() - 1 implies is_head(#[trigger] all[i], f[0] as char) by {
                if i > 0 {
                    assert(all[i] == tail[i - 1]);
                }
            }
            assert(all.last() == tail.last());
        }
    }
}

/// A frame that arrives over several reads is reported as one head at its
/// first byte, zero or more further heads, and exactly one tail. This holds
/// whenever the first read buffer of at least five bytes ends before the
/// frame does (else the frame is reported whole) and the reads do not end
/// with bytes of it still carried (else no tail has been reported yet).
pub proof fn lemma_frame_over_many_reads(f: Seq<u8>, chunks: Seq<Seq<u8>>)
    requires
        whole_frame(f),
        f.len() <= usize::MAX,
        concat(chunks) == f,
        first_buffer_len(chunks, 0) < f.len(),
        reads_out(None, seq![], chunks).1 is None || reads_out(None, seq![], chunks).2.len() == 0,
    ensures
        pieces(reads_out(None, seq![], chunks).0, f[0] as char),
{
    assert(Seq::<u8>::empty() + concat(chunks) =~= concat(chunks));
    lemma_reads_idle(f, seq![], chunks);
}

} // verus!
