use crate::proto::{
    declared_len, framing_ok, frames, parse_spec, prepend, tag_at, Framing, ProtoMessage,
    MAX_FRAME_LEN,
};
use vstd::prelude::*;

verus! {

/// A frame in stream coordinates: its tag, the positions of its first and
/// last byte seen so far, and whether its end has been seen.
pub struct StreamFrame {
    pub tag: char,
    pub start: int,
    pub end: int,
    pub whole: bool,
}

/// Places one descriptor, reported for a buffer that starts at stream
/// position `base`, onto the frames found so far: a piece of an unfinished
/// frame extends it.
pub open spec fn place(acc: Seq<StreamFrame>, base: int, m: ProtoMessage) -> Seq<StreamFrame> {
    let open = acc.len() > 0 && !acc.last().whole;
    match m {
        ProtoMessage::Message(t, s, e) => acc.push(
            StreamFrame { tag: t, start: base + s, end: base + e, whole: true },
        ),
        ProtoMessage::Partial(t, s, e) => if open {
            acc.update(acc.len() - 1, StreamFrame { end: base + e, ..acc.last() })
        } else {
            acc.push(StreamFrame { tag: t, start: base + s, end: base + e, whole: false })
        },
        ProtoMessage::PartialComplete(t, e) => if open {
            acc.update(acc.len() - 1, StreamFrame { end: base + e, whole: true, ..acc.last() })
        } else {
            acc.push(StreamFrame { tag: t, start: base, end: base + e, whole: true })
        },
    }
}

/// Places descriptors of one buffer in order.
pub open spec fn merge(acc: Seq<StreamFrame>, base: int, ms: Seq<ProtoMessage>) -> Seq<StreamFrame>
    decreases ms.len(),
{
    if ms.len() == 0 {
        acc
    } else {
        merge(place(acc, base, ms[0]), base, ms.drop_first())
    }
}

/// The bytes of all chunks, in order.
pub open spec fn concat(chunks: Seq<Seq<u8>>) -> Seq<u8>
    decreases chunks.len(),
{
    if chunks.len() == 0 {
        seq![]
    } else {
        chunks[0] + concat(chunks.drop_first())
    }
}

/// Feeding `chunks` one read at a time, each after the bytes carried from
/// the one before, starting at stream position `base`: whether every header
/// was valid, the frames found, and the framing state and carry at the end.
pub open spec fn run(
    acc: Seq<StreamFrame>,
    st: Framing,
    carry: Seq<u8>,
    chunks: Seq<Seq<u8>>,
    base: int,
) -> (bool, Seq<StreamFrame>, Framing, Seq<u8>)
    decreases chunks.len(),
{
    if chunks.len() == 0 {
        (true, acc, st, carry)
    } else {
        let buf = carry + chunks[0];
        let scan = parse_spec(st, buf);
        if !scan.valid {
            (false, merge(acc, base, scan.out), scan.state, buf.skip(scan.consumed as int))
        } else {
            run(
                merge(acc, base, scan.out),
                scan.state,
                buf.skip(scan.consumed as int),
                chunks.drop_first(),
                base + scan.consumed,
            )
        }
    }
}

/// The last frame found is unfinished exactly when the parser is inside one.
pub open spec fn context_ok(acc: Seq<StreamFrame>, st: Framing) -> bool {
    match st {
        Some(_) => acc.len() > 0 && !acc.last().whole,
        None => acc.len() == 0 || acc.last().whole,
    }
}

proof fn lemma_merge_prepend(acc: Seq<StreamFrame>, base: int, m: ProtoMessage, rest: Seq<ProtoMessage>)
    ensures
        merge(acc, base, seq![m] + rest) == merge(place(acc, base, m), base, rest),
{
    assert((seq![m] + rest).drop_first() =~= rest);
}

proof fn lemma_merge_single(acc: Seq<StreamFrame>, base: int, m: ProtoMessage)
    ensures
        merge(acc, base, seq![m]) == place(acc, base, m),
{
    lemma_merge_prepend(acc, base, m, seq![]);
    assert(seq![m] + Seq::<ProtoMessage>::empty() =~= seq![m]);
}

/// Reading from `off + j` of `x` is reading from `j` of `x` without its
/// first `off` bytes, with positions moved by `off`.
proof fn lemma_frames_shift(acc: Seq<StreamFrame>, base: int, x: Seq<u8>, off: nat, j: nat)
    requires
        off <= x.len(),
        x.len() <= usize::MAX,
    ensures
        frames(x, off + j).valid == frames(x.skip(off as int), j).valid,
        frames(x, off + j).state == frames(x.skip(off as int), j).state,
        merge(acc, base, frames(x, off + j).out) == merge(acc, base + off, frames(x.skip(off as int), j).out),
    decreases x.len() - off - j,
{
    let y = x.skip(off as int);
    let p = (off + j) as nat;
    if p + 5 <= x.len() {
        assert(declared_len(x, p as int) == declared_len(y, j as int));
        assert(tag_at(x, p as int) == tag_at(y, j as int));
        assert(x[p as int] == y[j as int]);
        let len = declared_len(x, p as int);
        let t = tag_at(x, p as int);
        if 4 <= len <= MAX_FRAME_LEN && p + 1 + len <= x.len() {
            let mx = ProtoMessage::Message(t, p as usize, (p + len) as usize);
            let my = ProtoMessage::Message(t, j as usize, (j + len) as usize);
            let nj = (j + 1 + len) as nat;
            assert((off + nj) as nat == (p + 1 + len) as nat);
            lemma_merge_prepend(acc, base, mx, frames(x, (p + 1 + len) as nat).out);
            lemma_merge_prepend(acc, base + off, my, frames(y, nj).out);
            assert(place(acc, base, mx) == place(acc, base + off, my));
            lemma_frames_shift(place(acc, base, mx), base, x, off, nj);
        } else if 4 <= len <= MAX_FRAME_LEN {
            let mx = ProtoMessage::Partial(t, p as usize, (x.len() - 1) as usize);
            let my = ProtoMessage::Partial(t, j as usize, (y.len() - 1) as usize);
            lemma_merge_single(acc, base, mx);
            lemma_merge_single(acc, base + off, my);
            assert(place(acc, base, mx) == place(acc, base + off, my));
        }
    }
}

/// Whether, after the first buffer, a frame is left open with fewer than
/// five further bytes in the stream (which no read can act on).
pub open spec fn stranded(st: Framing, rest: Seq<u8>) -> bool {
    st is Some && 0 < rest.len() < 5
}

pub open spec fn split_holds(acc: Seq<StreamFrame>, base: int, a: Seq<u8>, b: Seq<u8>, off: nat) -> bool {
    let fa = frames(a, off);
    let rest = parse_spec(fa.state, a.skip(fa.consumed as int) + b);
    let whole = frames(a + b, off);
    &&& fa.valid ==> {
        &&& rest.valid == whole.valid
        &&& merge(acc, base, whole.out) == merge(merge(acc, base, fa.out), base + fa.consumed, rest.out)
        &&& rest.state == whole.state
    }
    &&& !fa.valid ==> !whole.valid && merge(acc, base, whole.out) == merge(acc, base, fa.out)
}

proof fn lemma_split_short(acc: Seq<StreamFrame>, base: int, a: Seq<u8>, b: Seq<u8>, off: nat)
    requires
        off <= a.len(),
        off + 5 > a.len(),
        a.len() + b.len() <= usize::MAX,
    ensures
        split_holds(acc, base, a, b, off),
{
    let x = a + b;
    let fa = frames(a, off);
    assert(fa.out =~= Seq::<ProtoMessage>::empty());
    assert(x.skip(off as int) =~= a.skip(off as int) + b);
    lemma_frames_shift(acc, base, x, off, 0);
    assert((off + 0) as nat == off);
    let y = x.skip(off as int);
    if y.len() < 5 {
        assert(frames(y, 0).out =~= Seq::<ProtoMessage>::empty());
    }
}

proof fn lemma_split_open(acc: Seq<StreamFrame>, base: int, a: Seq<u8>, b: Seq<u8>, off: nat)
    requires
        off + 5 <= a.len(),
        a.len() + b.len() <= usize::MAX,
        context_ok(acc, None),
        4 <= declared_len(a, off as int) <= MAX_FRAME_LEN,
        off + 1 + declared_len(a, off as int) > a.len(),
        !stranded(frames(a, off).state, b),
    ensures
        split_holds(acc, base, a, b, off),
{
    let x = a + b;
    let fa = frames(a, off);
    assert(declared_len(x, off as int) == declared_len(a, off as int));
    assert(x[off as int] == a[off as int]);
    let len = declared_len(a, off as int);
    let t = tag_at(a, off as int);
    let rem = (len - (a.len() - off - 1)) as nat;
    let p = ProtoMessage::Partial(t, off as usize, (a.len() - 1) as usize);
    assert(fa.out == seq![p]);
    lemma_merge_single(acc, base, p);
    assert(a.skip(a.len() as int) + b =~= b);
    let opened = place(acc, base, p);
    if b.len() == 0 {
        assert(x =~= a);
        assert(parse_spec(fa.state, b).out =~= Seq::<ProtoMessage>::empty());
    } else {
        assert(x.skip(a.len() as int) =~= b);
        let tagb = a[off as int];
        if rem <= b.len() {
            let pc = ProtoMessage::PartialComplete(tagb as char, (rem - 1) as usize);
            let m = ProtoMessage::Message(t, off as usize, (off + len) as usize);
            lemma_merge_prepend(opened, base + a.len(), pc, frames(b, rem).out);
            lemma_merge_prepend(acc, base, m, frames(x, (a.len() + rem) as nat).out);
            assert(place(opened, base + a.len(), pc) =~= place(acc, base, m));
            assert((off + 1 + len) as nat == (a.len() + rem) as nat);
            lemma_frames_shift(place(acc, base, m), base, x, a.len(), rem);
        } else {
            let pb = ProtoMessage::Partial(tagb as char, 0, (b.len() - 1) as usize);
            let px = ProtoMessage::Partial(t, off as usize, (x.len() - 1) as usize);
            lemma_merge_single(opened, base + a.len(), pb);
            lemma_merge_single(acc, base, px);
            assert(place(opened, base + a.len(), pb) =~= place(acc, base, px));
        }
    }
}

/// Scanning `a + b` from a frame boundary `off` inside `a` finds what
/// scanning `a`, and then the rest of the stream after what `a` covered, finds.
proof fn lemma_frames_split(acc: Seq<StreamFrame>, base: int, a: Seq<u8>, b: Seq<u8>, off: nat)
    requires
        off <= a.len(),
        a.len() + b.len() <= usize::MAX,
        context_ok(acc, None),
        !stranded(frames(a, off).state, b),
    ensures
        split_holds(acc, base, a, b, off),
    decreases a.len() - off,
{
    if off + 5 > a.len() {
        lemma_split_short(acc, base, a, b, off);
    } else {
        let x = a + b;
        assert(declared_len(x, off as int) == declared_len(a, off as int));
        assert(x[off as int] == a[off as int]);
        let len = declared_len(a, off as int);
        let t = tag_at(a, off as int);
        if len < 4 || len > MAX_FRAME_LEN {
            assert(frames(x, off).out =~= Seq::<ProtoMessage>::empty());
            assert(frames(a, off).out =~= Seq::<ProtoMessage>::empty());
        } else if off + 1 + len <= a.len() {
            let m = ProtoMessage::Message(t, off as usize, (off + len) as usize);
            let next = (off + 1 + len) as nat;
            assert(frames(x, off) == prepend(m, frames(x, next)));
            assert(frames(a, off) == prepend(m, frames(a, next)));
            lemma_merge_prepend(acc, base, m, frames(x, next).out);
            lemma_merge_prepend(acc, base, m, frames(a, next).out);
            lemma_frames_split(place(acc, base, m), base, a, b, next);
        } else {
            lemma_split_open(acc, base, a, b, off);
        }
    }
}

proof fn lemma_frames_context(acc: Seq<StreamFrame>, base: int, a: Seq<u8>, off: nat)
    requires
        context_ok(acc, None),
        frames(a, off).valid,
    ensures
        context_ok(merge(acc, base, frames(a, off).out), frames(a, off).state),
    decreases a.len() - off,
{
    if off + 5 <= a.len() {
        let len = declared_len(a, off as int);
        let t = tag_at(a, off as int);
        if off + 1 + len <= a.len() {
            let m = ProtoMessage::Message(t, off as usize, (off + len) as usize);
            let next = (off + 1 + len) as nat;
            lemma_merge_prepend(acc, base, m, frames(a, next).out);
            lemma_frames_context(place(acc, base, m), base, a, next);
        } else {
            let p = ProtoMessage::Partial(t, off as usize, (a.len() - 1) as usize);
            lemma_merge_single(acc, base, p);
        }
    }
}

/// After a valid scan, the frames found agree with the framing state.
proof fn lemma_parse_context(acc: Seq<StreamFrame>, base: int, st: Framing, a: Seq<u8>)
    requires
        context_ok(acc, st),
        parse_spec(st, a).valid,
    ensures
        context_ok(merge(acc, base, parse_spec(st, a).out), parse_spec(st, a).state),
        parse_spec(st, a).state is Some && a.len() >= 5 ==> parse_spec(st, a).consumed == a.len(),
{
    lemma_pending_consumes_all(st, a);
    if a.len() >= 5 {
        match st {
            None => lemma_frames_context(acc, base, a, 0),
            Some((tag, rem)) => {
                if rem <= a.len() {
                    let pc = ProtoMessage::PartialComplete(tag as char, (rem - 1) as usize);
                    lemma_merge_prepend(acc, base, pc, frames(a, rem).out);
                    lemma_frames_context(place(acc, base, pc), base, a, rem);
                } else {
                    lemma_merge_single(acc, base, ProtoMessage::Partial(tag as char, 0, (a.len() - 1) as usize));
                }
            },
        }
    }
}

proof fn lemma_frames_pending_all(a: Seq<u8>, off: nat)
    requires
        off <= a.len(),
    ensures
        frames(a, off).state is Some ==> frames(a, off).consumed == a.len(),
    decreases a.len() - off,
{
    if off + 5 <= a.len() {
        let len = declared_len(a, off as int);
        if 4 <= len <= MAX_FRAME_LEN && off + 1 + len <= a.len() {
            lemma_frames_pending_all(a, (off + 1 + len) as nat);
        }
    }
}

proof fn lemma_frames_invalid_idle(a: Seq<u8>, off: nat)
    ensures
        !frames(a, off).valid ==> frames(a, off).state is None,
    decreases a.len() - off,
{
    if off + 5 <= a.len() {
        let len = declared_len(a, off as int);
        if 4 <= len <= MAX_FRAME_LEN && off + 1 + len <= a.len() {
            lemma_frames_invalid_idle(a, (off + 1 + len) as nat);
        }
    }
}

proof fn lemma_pending_consumes_all(st: Framing, a: Seq<u8>)
    ensures
        parse_spec(st, a).state is Some && a.len() >= 5 ==> parse_spec(st, a).consumed == a.len(),
        !parse_spec(st, a).valid ==> parse_spec(st, a).state is None,
{
    if a.len() >= 5 {
        match st {
            None => lemma_frames_invalid_idle(a, 0),
            Some((tag, rem)) => if rem <= a.len() {
                lemma_frames_invalid_idle(a, rem);
            },
        }
    }
    if a.len() >= 5 {
        match st {
            None => lemma_frames_pending_all(a, 0),
            Some((tag, rem)) => if rem <= a.len() {
                lemma_frames_pending_all(a, rem);
            },
        }
    }
}

proof fn lemma_parse_split_pending(acc: Seq<StreamFrame>, base: int, tag: u8, rem: nat, a: Seq<u8>, b: Seq<u8>)
    requires
        rem > a.len(),
        a.len() >= 5,
        a.len() + b.len() <= usize::MAX,
        context_ok(acc, Some((tag, rem))),
        !stranded(Some((tag, (rem - a.len()) as nat)), b),
    ensures
        ({
            let st = Some((tag, rem));
            let sa = parse_spec(st, a);
            let rest = parse_spec(sa.state, a.skip(sa.consumed as int) + b);
            &&& sa.valid
            &&& rest.valid == parse_spec(st, a + b).valid
            &&& merge(acc, base, parse_spec(st, a + b).out) == merge(
                merge(acc, base, sa.out),
                base + sa.consumed,
                rest.out,
            )
            &&& rest.state == parse_spec(st, a + b).state
        }),
{
    let st: Framing = Some((tag, rem));
    let x = a + b;
    let rem2 = (rem - a.len()) as nat;
    let p = ProtoMessage::Partial(tag as char, 0, (a.len() - 1) as usize);
    lemma_merge_single(acc, base, p);
    assert(a.skip(a.len() as int) + b =~= b);
    let extended = place(acc, base, p);
    if b.len() == 0 {
        assert(x =~= a);
        assert(parse_spec(Some((tag, rem2)), b).out =~= Seq::<ProtoMessage>::empty());
    } else {
        assert(x.skip(a.len() as int) =~= b);
        if rem2 <= b.len() {
            let pcb = ProtoMessage::PartialComplete(tag as char, (rem2 - 1) as usize);
            let pcx = ProtoMessage::PartialComplete(tag as char, (rem - 1) as usize);
            lemma_merge_prepend(extended, base + a.len(), pcb, frames(b, rem2).out);
            lemma_merge_prepend(acc, base, pcx, frames(x, rem).out);
            assert(place(extended, base + a.len(), pcb) =~= place(acc, base, pcx));
            assert((a.len() + rem2) as nat == rem);
            lemma_frames_shift(place(acc, base, pcx), base, x, a.len(), rem2);
        } else {
            let pb = ProtoMessage::Partial(tag as char, 0, (b.len() - 1) as usize);
            let px = ProtoMessage::Partial(tag as char, 0, (x.len() - 1) as usize);
            lemma_merge_single(extended, base + a.len(), pb);
            lemma_merge_single(acc, base, px);
            assert(place(extended, base + a.len(), pb) =~= place(acc, base, px));
        }
    }
}

/// One read split off the front of a stream: scanning the whole equals
/// scanning the read, then the rest after what the read covered.
proof fn lemma_parse_split(acc: Seq<StreamFrame>, base: int, st: Framing, a: Seq<u8>, b: Seq<u8>)
    requires
        framing_ok(st),
        context_ok(acc, st),
        a.len() + b.len() <= usize::MAX,
        a.len() >= 5 ==> !stranded(parse_spec(st, a).state, b),
    ensures
        ({
            let sa = parse_spec(st, a);
            let rest = parse_spec(sa.state, a.skip(sa.consumed as int) + b);
            let whole = parse_spec(st, a + b);
            &&& sa.valid ==> {
                &&& rest.valid == whole.valid
                &&& merge(acc, base, whole.out) == merge(merge(acc, base, sa.out), base + sa.consumed, rest.out)
                &&& rest.state == whole.state
            }
            &&& !sa.valid ==> !whole.valid && merge(acc, base, whole.out) == merge(acc, base, sa.out)
        }),
{
    let x = a + b;
    if a.len() < 5 {
        assert(a.skip(0) =~= a);
        assert(parse_spec(st, a).out =~= Seq::<ProtoMessage>::empty());
    } else {
        match st {
            None => {
                lemma_frames_split(acc, base, a, b, 0);
            },
            Some((tag, rem)) => {
                if rem <= a.len() {
                    let pc = ProtoMessage::PartialComplete(tag as char, (rem - 1) as usize);
                    lemma_merge_prepend(acc, base, pc, frames(a, rem).out);
                    lemma_merge_prepend(acc, base, pc, frames(x, rem).out);
                    lemma_frames_split(place(acc, base, pc), base, a, b, rem);
                } else {
                    lemma_parse_split_pending(acc, base, tag, rem, a, b);
                }
            },
        }
    }
}

/// Reads that together hold fewer than five bytes leave a pending frame as
/// it was and carry everything.
proof fn lemma_run_short(acc: Seq<StreamFrame>, st: Framing, carry: Seq<u8>, chunks: Seq<Seq<u8>>, base: int)
    requires
        carry.len() + concat(chunks).len() < 5,
    ensures
        run(acc, st, carry, chunks, base).0,
        run(acc, st, carry, chunks, base).2 == st,
        run(acc, st, carry, chunks, base).3 == carry + concat(chunks),
    decreases chunks.len(),
{
    if chunks.len() == 0 {
        assert(carry + concat(chunks) =~= carry);
    } else {
        let buf = carry + chunks[0];
        assert(parse_spec(st, buf).out =~= Seq::<ProtoMessage>::empty());
        assert(buf.skip(0) =~= buf);
        assert(concat(chunks) =~= chunks[0] + concat(chunks.drop_first()));
        assert((carry + chunks[0]) + concat(chunks.drop_first()) =~= carry + concat(chunks));
        lemma_run_short(acc, st, buf, chunks.drop_first(), base);
    }
}

proof fn lemma_run(acc: Seq<StreamFrame>, st: Framing, carry: Seq<u8>, chunks: Seq<Seq<u8>>, base: int)
    requires
        framing_ok(st),
        context_ok(acc, st),
        carry.len() <= 4,
        carry.len() + concat(chunks).len() <= usize::MAX,
        run(acc, st, carry, chunks, base).2 is None || run(acc, st, carry, chunks, base).3.len() == 0,
    ensures
        run(acc, st, carry, chunks, base).0 == parse_spec(st, carry + concat(chunks)).valid,
        run(acc, st, carry, chunks, base).1 == merge(acc, base, parse_spec(st, carry + concat(chunks)).out),
    decreases chunks.len(),
{
    if chunks.len() == 0 {
        assert(carry + concat(chunks) =~= carry);
        assert(parse_spec(st, carry).out =~= Seq::<ProtoMessage>::empty());
    } else {
        let a = carry + chunks[0];
        let rest_chunks = chunks.drop_first();
        let b = concat(rest_chunks);
        assert(concat(chunks) =~= chunks[0] + b);
        assert(carry + concat(chunks) =~= a + b);
        let sa = parse_spec(st, a);
        crate::proto::lemma_parse_in_bounds_any(st, a);
        lemma_pending_consumes_all(st, a);
        if a.len() >= 5 && stranded(sa.state, b) && sa.valid {
            lemma_run_short(merge(acc, base, sa.out), sa.state, a.skip(sa.consumed as int), rest_chunks, base + sa.consumed);
            assert(a.skip(sa.consumed as int) =~= Seq::<u8>::empty());
            assert(false);
        }
        lemma_parse_split(acc, base, st, a, b);
        if sa.valid {
            lemma_parse_context(acc, base, st, a);
            let carry2 = a.skip(sa.consumed as int);
            let acc2 = merge(acc, base, sa.out);
            lemma_run(acc2, sa.state, carry2, rest_chunks, base + sa.consumed);
        }
    }
}

/// Splitting a stream into reads changes nothing that the frames found say:
/// feeding the reads one at a time, each after the bytes carried from the
/// one before, and placing every descriptor at its stream position, yields
/// the same frames as parsing the whole stream at once, and an invalid
/// header is met by both or by neither. This holds for streams that fit in
/// memory, when the last read does not leave a frame open with bytes still
/// carried (those bytes would be described by the whole-stream parse but
/// are still waiting in the chunked one).
pub proof fn lemma_chunking_is_invisible(chunks: Seq<Seq<u8>>)
    requires
        concat(chunks).len() <= usize::MAX,
        run(seq![], None, seq![], chunks, 0).2 is None || run(seq![], None, seq![], chunks, 0).3.len() == 0,
    ensures
        run(seq![], None, seq![], chunks, 0).0 == parse_spec(None, concat(chunks)).valid,
        run(seq![], None, seq![], chunks, 0).1 == merge(seq![], 0, parse_spec(None, concat(chunks)).out),
{
    assert(Seq::<u8>::empty() + concat(chunks) =~= concat(chunks));
    lemma_run(seq![], None, seq![], chunks, 0);
}

} // verus!
