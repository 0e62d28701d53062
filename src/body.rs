//! Flow-controlled writing of outgoing bodies and reading of incoming ones.
use crate::wire::append_bytes;
use vstd::prelude::*;

verus! {

/// The sink operation that failed.
#[derive(Debug, Clone, Copy, PartialEq, Eq, Structural)]
pub enum SinkOp {
    Open,
    CheckWrite,
    Write,
    Flush,
}

/// What can go wrong while moving body bytes.
#[derive(Debug, Clone, Copy, PartialEq, Eq, Structural)]
pub enum BodyError {
    /// The output sink refused an operation; the transfer is abandoned.
    SinkWriteFailed(SinkOp),
    /// Reading from the byte-producing source failed.
    SourceReadFailed,
    /// A media type given as text did not parse.
    MimeParseFailed,
}

/// One request made of a byte source: the size asked, and the chunk handed
/// out, or `None` where the request failed.
pub ghost struct Pull {
    pub max: usize,
    pub got: Option<Seq<u8>>,
}

/// A pull-based producer of bytes, read at most once from start to end.
pub trait ByteSource {
    /// The bytes the source has yet to hand out.
    spec fn unread(&self) -> Seq<u8>;

    /// Whether every request before the source's end succeeds.
    spec fn healthy(&self) -> bool;

    /// Every request made of the source so far, in order.
    spec fn pulls(&self) -> Seq<Pull>;

    /// Hands out at most `max` of the next bytes. An empty chunk, where `max`
    /// is positive, means the source is exhausted; a source that will fail
    /// before its end never reports it.
    fn pull(&mut self, max: usize) -> (r: Result<Vec<u8>, ()>)
        ensures
            r matches Ok(v) ==> {
                &&& v@.len() <= max
                &&& old(self).unread() == v@ + final(self).unread()
                &&& (v@.len() == 0 && max > 0 ==> old(self).unread().len() == 0)
                &&& (v@.len() == 0 && max > 0 ==> old(self).healthy())
            },
            old(self).healthy() ==> (r is Ok && final(self).healthy()),
            !old(self).healthy() && r is Ok ==> !final(self).healthy(),
            final(self).pulls() == old(self).pulls().push(
                Pull {
                    max,
                    got: match r {
                        Ok(v) => Some(v@),
                        Err(_) => None,
                    },
                },
            ),
    ;
}

/// A byte source over bytes held in memory.
pub struct ByteCursor {
    data: Vec<u8>,
    pos: usize,
    asked: Ghost<Seq<Pull>>,
}

impl ByteCursor {
    pub fn new(data: Vec<u8>) -> (r: ByteCursor)
        ensures
            r.unread() == data@,
            r.healthy(),
    {
        let r = ByteCursor { data, pos: 0, asked: Ghost(Seq::empty()) };
        assert(r.data@.subrange(0, r.data@.len() as int) =~= r.data@);
        r
    }
}

impl ByteSource for ByteCursor {
    closed spec fn healthy(&self) -> bool {
        true
    }

    closed spec fn pulls(&self) -> Seq<Pull> {
        self.asked@
    }

    closed spec fn unread(&self) -> Seq<u8> {
        if self.pos <= self.data@.len() {
            self.data@.subrange(self.pos as int, self.data@.len() as int)
        } else {
            Seq::empty()
        }
    }

    fn pull(&mut self, max: usize) -> (r: Result<Vec<u8>, ()>) {
        let mut out: Vec<u8> = Vec::new();
        if self.pos >= self.data.len() {
            self.asked = Ghost(self.asked@.push(Pull { max, got: Some(out@) }));
            return Ok(out);
        }
        let len = self.data.len();
        let avail = len - self.pos;
        let n: usize = if avail < max {
            avail
        } else {
            max
        };
        let start = self.pos;
        let mut j: usize = 0;
        while j < n
            invariant
                j <= n,
                n <= avail,
                start + avail == len,
                len == self.data@.len(),
                self.pos == start,
                out@ == self.data@.subrange(start as int, start + j),
            decreases n - j,
        {
            out.push(self.data[start + j]);
            j = j + 1;
            assert(out@ =~= self.data@.subrange(start as int, start + j));
        }
        self.pos = start + n;
        assert(old(self).unread() =~= out@ + self.unread());
        self.asked = Ghost(self.asked@.push(Pull { max, got: Some(out@) }));
        Ok(out)
    }
}

/// How many bytes are pulled from a producer at a time when it is streamed
/// into a sink.
pub const STREAM_CHUNK_SIZE: usize = 65536;

/// How many bytes are asked of an incoming stream at a time when a whole body
/// is collected.
pub const BODY_CHUNK_SIZE: usize = 1048576;

/// One operation made on a sink, with its outcome.
pub ghost enum SinkCall {
    Open(bool),
    Block,
    /// The permit granted, or `None` where the check failed.
    CheckWrite(Option<u64>),
    Write(Seq<u8>, bool),
    Flush(bool),
}

/// The bytes that a run of paced writes delivered.
pub open spec fn sent(calls: Seq<SinkCall>) -> Seq<u8>
    decreases calls.len(),
{
    if calls.len() < 3 {
        Seq::empty()
    } else {
        sent(calls.take(calls.len() - 3)) + match calls.last() {
            SinkCall::Write(c, _) => c,
            _ => Seq::empty(),
        }
    }
}

/// A run of writes of `data` paced by the sink: each is a wait for readiness,
/// a permit check granting `p`, and a successful write of the next
/// `min(p, bytes left)` bytes.
pub open spec fn paced(calls: Seq<SinkCall>, data: Seq<u8>) -> bool
    decreases calls.len(),
{
    if calls.len() == 0 {
        true
    } else if calls.len() < 3 {
        false
    } else {
        let init = calls.take(calls.len() - 3);
        let done = sent(init).len();
        &&& paced(init, data)
        &&& calls[calls.len() - 3] == SinkCall::Block
        &&& match (calls[calls.len() - 2], calls[calls.len() - 1]) {
            (SinkCall::CheckWrite(Some(p)), SinkCall::Write(c, true)) => {
                &&& done < data.len()
                &&& c == data.subrange(
                    done as int,
                    done + if p < data.len() - done {
                        p as int
                    } else {
                        data.len() - done
                    },
                )
            },
            _ => false,
        }
    }
}

/// The calls that close a transfer: a flush, a wait for readiness and a
/// final permit check, all successful.
pub open spec fn closing_calls(calls: Seq<SinkCall>) -> bool {
    &&& calls.len() == 3
    &&& calls[0] == SinkCall::Flush(true)
    &&& calls[1] == SinkCall::Block
    &&& calls[2] matches SinkCall::CheckWrite(Some(_))
}

/// The calls of a whole transfer of `data`: one open, the paced writes of all
/// of `data`, then the closing calls.
pub open spec fn transfer_calls(calls: Seq<SinkCall>, data: Seq<u8>) -> bool {
    &&& calls.len() >= 4
    &&& calls[0] == SinkCall::Open(true)
    &&& paced(calls.subrange(1, calls.len() - 3), data)
    &&& sent(calls.subrange(1, calls.len() - 3)) == data
    &&& closing_calls(calls.subrange(calls.len() - 3, calls.len() as int))
}

/// The calls of a streamed transfer: they start with a successful open and
/// end with the closing calls.
pub open spec fn opened_and_closed(calls: Seq<SinkCall>) -> bool {
    &&& calls.len() >= 4
    &&& calls[0] == SinkCall::Open(true)
    &&& closing_calls(calls.subrange(calls.len() - 3, calls.len() as int))
}

/// Whether a call succeeded.
pub open spec fn succeeded(c: SinkCall) -> bool {
    match c {
        SinkCall::Open(ok) => ok,
        SinkCall::Block => true,
        SinkCall::CheckWrite(p) => p is Some,
        SinkCall::Write(_, ok) => ok,
        SinkCall::Flush(ok) => ok,
    }
}

/// Whether every call of a run succeeded.
pub open spec fn all_succeeded(calls: Seq<SinkCall>) -> bool {
    forall|i: int| 0 <= i < calls.len() ==> succeeded(#[trigger] calls[i])
}

/// Requests of a streamed transfer: each asks [`STREAM_CHUNK_SIZE`] bytes.
pub open spec fn stream_pulls(ps: Seq<Pull>) -> bool {
    forall|i: int| 0 <= i < ps.len() ==> (#[trigger] ps[i]).max == STREAM_CHUNK_SIZE
}

/// Requests that all succeeded.
pub open spec fn pulls_succeeded(ps: Seq<Pull>) -> bool {
    forall|i: int| 0 <= i < ps.len() ==> (#[trigger] ps[i]).got is Some
}

/// A streamed transfer that succeeded: non-empty chunks, then the empty one
/// that ends the producer; on the sink, one open, a paced run writing each
/// chunk in full, in order, then the closing calls.
pub open spec fn streamed_ok(calls: Seq<SinkCall>, pulls: Seq<Pull>) -> bool {
    &&& pulls.len() >= 1
    &&& pulls.last().got == Some(Seq::<u8>::empty())
    &&& all_nonempty(pulls.drop_last())
    &&& calls.len() >= 4
    &&& calls[0] == SinkCall::Open(true)
    &&& paced_chunks(calls.subrange(1, calls.len() - 3), chunks_of(pulls.drop_last()))
    &&& closing_calls(calls.subrange(calls.len() - 3, calls.len() as int))
}

/// A streamed transfer whose producer failed: non-empty chunks, then the
/// failed request, the last one; on the sink, one open and a paced run writing
/// each chunk pulled before in full, all successful, and nothing after.
pub open spec fn source_failed(calls: Seq<SinkCall>, pulls: Seq<Pull>) -> bool {
    &&& pulls.len() >= 1
    &&& pulls.last().got is None
    &&& all_nonempty(pulls.drop_last())
    &&& calls.len() >= 1
    &&& calls[0] == SinkCall::Open(true)
    &&& paced_chunks(calls.skip(1), chunks_of(pulls.drop_last()))
    &&& all_succeeded(calls)
}

/// Whether the last call failed, as the operation `op`.
pub open spec fn last_call_failed(calls: Seq<SinkCall>, op: SinkOp) -> bool {
    &&& calls.len() > 0
    &&& match (calls.last(), op) {
        (SinkCall::Open(false), SinkOp::Open) => true,
        (SinkCall::CheckWrite(None), SinkOp::CheckWrite) => true,
        (SinkCall::Write(_, false), SinkOp::Write) => true,
        (SinkCall::Flush(false), SinkOp::Flush) => true,
        _ => false,
    }
}

/// A flow-controlled output: it takes bytes only within the permit that the
/// last check granted, and tells when it is ready for more.
pub trait ChunkSink {
    /// Every operation made on the sink so far, in order.
    spec fn calls(&self) -> Seq<SinkCall>;

    /// Every byte written so far, in order.
    spec fn written(&self) -> Seq<u8>;

    /// The number of bytes that the last permit check allows.
    spec fn permit(&self) -> nat;

    /// Whether the sink has become ready since the last permit check.
    spec fn ready(&self) -> bool;

    /// Whether the sink's operations succeed; a sink that does not fail keeps
    /// not failing.
    spec fn healthy(&self) -> bool;

    /// Opens the write transaction.
    fn open(&mut self) -> (r: Result<(), ()>)
        ensures
            final(self).written() == old(self).written(),
            old(self).healthy() ==> (r is Ok && final(self).healthy()),
            final(self).calls() == old(self).calls().push(SinkCall::Open(r is Ok)),
    ;

    /// Blocks until the sink accepts more bytes.
    fn block(&mut self)
        ensures
            final(self).written() == old(self).written(),
            final(self).ready(),
            old(self).healthy() ==> final(self).healthy(),
            final(self).calls() == old(self).calls().push(SinkCall::Block),
    ;

    /// Asks how many bytes may be written now; a sink that has become ready
    /// grants at least one.
    fn check_write(&mut self) -> (r: Result<u64, ()>)
        ensures
            final(self).written() == old(self).written(),
            r matches Ok(n) ==> final(self).permit() == n && (old(self).ready() ==> n > 0),
            old(self).healthy() ==> (r is Ok && final(self).healthy()),
            final(self).calls() == old(self).calls().push(
                SinkCall::CheckWrite(
                    match r {
                        Ok(n) => Some(n),
                        Err(_) => None,
                    },
                ),
            ),
    ;

    /// Writes bytes within the permit. A failed write may have taken a first
    /// part of them.
    fn write(&mut self, bytes: &[u8]) -> (r: Result<(), ()>)
        requires
            bytes@.len() <= old(self).permit(),
        ensures
            r is Ok ==> final(self).written() == old(self).written() + bytes@,
            old(self).written().is_prefix_of(final(self).written()),
            final(self).written().is_prefix_of(old(self).written() + bytes@),
            old(self).healthy() ==> (r is Ok && final(self).healthy()),
            final(self).calls() == old(self).calls().push(SinkCall::Write(bytes@, r is Ok)),
    ;

    /// Flushes what was written.
    fn flush(&mut self) -> (r: Result<(), ()>)
        ensures
            final(self).written() == old(self).written(),
            old(self).healthy() ==> (r is Ok && final(self).healthy()),
            final(self).calls() == old(self).calls().push(SinkCall::Flush(r is Ok)),
    ;
}

proof fn lemma_prefix_trans<A>(a: Seq<A>, b: Seq<A>, c: Seq<A>)
    requires
        a.is_prefix_of(b),
        b.is_prefix_of(c),
    ensures
        a.is_prefix_of(c),
{
    assert(a =~= c.subrange(0, a.len() as int));
}

proof fn lemma_prefix_of_longer<A>(a: Seq<A>, b: Seq<A>, c: Seq<A>)
    ensures
        a.is_prefix_of(a + b),
        (a + b).is_prefix_of((a + b) + c),
        (a + b).is_prefix_of(a + (b + c)),
{
    assert(a =~= (a + b).subrange(0, a.len() as int));
    assert(a + b =~= ((a + b) + c).subrange(0, (a + b).len() as int));
    assert(a + b =~= (a + (b + c)).subrange(0, (a + b).len() as int));
}

/// Paced writes that delivered something end with a successful write.
proof fn lemma_sent_nonempty(calls: Seq<SinkCall>, data: Seq<u8>)
    requires
        paced(calls, data),
        sent(calls) == data,
        data.len() > 0,
    ensures
        calls.len() >= 3,
        calls.last() matches SinkCall::Write(_, true),
{
    if calls.len() < 3 {
        assert(sent(calls) =~= Seq::<u8>::empty());
    }
}

/// Writes `data` into an open sink, each time as much as the sink permits,
/// after waiting for readiness and checking the permit.
fn write_permitted<K: ChunkSink>(sink: &mut K, data: &[u8]) -> (r: Result<(), BodyError>)
    ensures
        r is Ok ==> final(sink).written() == old(sink).written() + data@,
        r matches Err(e) ==> e is SinkWriteFailed,
        old(sink).healthy() ==> (r is Ok && final(sink).healthy()),
        old(sink).written().is_prefix_of(final(sink).written()),
        final(sink).written().is_prefix_of(old(sink).written() + data@),
        old(sink).calls().is_prefix_of(final(sink).calls()),
        r is Ok ==> paced(final(sink).calls().skip(old(sink).calls().len() as int), data@),
        r is Ok ==> sent(final(sink).calls().skip(old(sink).calls().len() as int)) == data@,
        r matches Err(BodyError::SinkWriteFailed(op)) ==> last_call_failed(final(sink).calls(), op),
        r is Ok ==> all_succeeded(final(sink).calls().skip(old(sink).calls().len() as int)),
        r is Err ==> all_succeeded(
            final(sink).calls().skip(old(sink).calls().len() as int).drop_last(),
        ),
        r matches Err(BodyError::SinkWriteFailed(op)) ==> !(op is Open),
{
    let len = data.len();
    let mut off: usize = 0;
    let ghost nc: Seq<SinkCall> = Seq::empty();
    assert(old(sink).calls() + nc =~= old(sink).calls());
    proof {
        lemma_prefix_of_longer(old(sink).written(), Seq::<u8>::empty(), data@);
        assert(old(sink).written() + data@.take(0) =~= old(sink).written());
    }
    while off < len
        invariant
            off <= len,
            len == data@.len(),
            sink.written() == old(sink).written() + data@.take(off as int),
            old(sink).healthy() ==> sink.healthy(),
            sink.calls() == old(sink).calls() + nc,
            paced(nc, data@),
            sent(nc) == data@.take(off as int),
            all_succeeded(nc),
        decreases len - off,
    {
        let ghost w0 = sink.written();
        let ghost c0 = sink.calls();
        proof {
            lemma_prefix_of_longer(old(sink).written(), data@.take(off as int), data@.skip(off as int));
            assert(data@.take(off as int) + data@.skip(off as int) =~= data@);
            lemma_prefix_of_longer(old(sink).written(), data@.take(off as int), Seq::empty());
        }
        sink.block();
        let permit = match sink.check_write() {
            Ok(p) => p,
            Err(_) => {
                assert(old(sink).calls() =~= sink.calls().subrange(0, old(sink).calls().len() as int));
                assert(sink.calls().skip(old(sink).calls().len() as int).drop_last() =~= nc.push(SinkCall::Block));
                return Err(BodyError::SinkWriteFailed(SinkOp::CheckWrite));
            },
        };
        let rest = len - off;
        let n: usize = if (permit as u128) < (rest as u128) {
            permit as usize
        } else {
            rest
        };
        let mut piece: Vec<u8> = Vec::new();
        let mut j: usize = 0;
        while j < n
            invariant
                j <= n,
                off + n <= len,
                len == data@.len(),
                piece@ == data@.subrange(off as int, off + j),
            decreases n - j,
        {
            piece.push(data[off + j]);
            j = j + 1;
            assert(piece@ =~= data@.subrange(off as int, off + j));
        }
        assert(data@.take(off + n) =~= data@.take(off as int) + piece@);
        proof {
            lemma_prefix_of_longer(old(sink).written(), data@.take(off + n), data@.skip(off + n));
            assert(data@.take(off + n) + data@.skip(off + n) =~= data@);
            assert(w0 + piece@ =~= old(sink).written() + data@.take(off + n));
        }
        let ghost p = permit;
        match sink.write(piece.as_slice()) {
            Ok(()) => {},
            Err(_) => {
                proof {
                    lemma_prefix_of_longer(old(sink).calls(), c0.skip(old(sink).calls().len() as int), seq![SinkCall::Block, SinkCall::CheckWrite(Some(p)), SinkCall::Write(piece@, false)]);
                    assert(sink.calls() =~= c0 + seq![SinkCall::Block, SinkCall::CheckWrite(Some(p)), SinkCall::Write(piece@, false)]);
                    assert(c0 =~= old(sink).calls() + c0.skip(old(sink).calls().len() as int));
                    assert(sink.calls().skip(old(sink).calls().len() as int).drop_last() =~= nc + seq![SinkCall::Block, SinkCall::CheckWrite(Some(p))]);
                    lemma_prefix_trans(old(sink).written(), w0, sink.written());
                    lemma_prefix_trans(sink.written(), w0 + piece@, old(sink).written() + data@);
                }
                return Err(BodyError::SinkWriteFailed(SinkOp::Write));
            },
        }
        proof {
            let nc2 = nc + seq![SinkCall::Block, SinkCall::CheckWrite(Some(p)), SinkCall::Write(piece@, true)];
            assert(nc2.take(nc2.len() - 3) =~= nc);
            assert(nc2[nc2.len() - 3] == SinkCall::Block);
            assert(nc2[nc2.len() - 2] == SinkCall::CheckWrite(Some(p)));
            assert(nc2[nc2.len() - 1] == SinkCall::Write(piece@, true));
            assert(sent(nc).len() == off);
            assert(piece@ =~= data@.subrange(off as int, off + n));
            assert(sent(nc2) =~= data@.take(off + n));
            assert(paced(nc2, data@));
            assert(sink.calls() =~= old(sink).calls() + nc2);
            nc = nc2;
        }
        off = off + n;
    }
    assert(data@.take(len as int) =~= data@);
    assert(sink.calls().skip(old(sink).calls().len() as int) =~= nc);
    assert(old(sink).calls() =~= sink.calls().subrange(0, old(sink).calls().len() as int));
    proof {
        lemma_prefix_of_longer(old(sink).written(), data@, Seq::<u8>::empty());
        assert(old(sink).written() + data@ + Seq::<u8>::empty() =~= old(sink).written() + data@);
    }
    Ok(())
}

/// Closes out a write transaction: flush, wait for readiness, check the permit.
fn finish_writes<K: ChunkSink>(sink: &mut K) -> (r: Result<(), BodyError>)
    ensures
        final(sink).written() == old(sink).written(),
        r matches Err(e) ==> e is SinkWriteFailed,
        old(sink).healthy() ==> r is Ok,
        old(sink).calls().is_prefix_of(final(sink).calls()),
        r is Ok ==> closing_calls(final(sink).calls().skip(old(sink).calls().len() as int)),
        r matches Err(BodyError::SinkWriteFailed(op)) ==> last_call_failed(final(sink).calls(), op),
        r is Err ==> all_succeeded(final(sink).calls().skip(old(sink).calls().len() as int).drop_last()),
        r matches Err(BodyError::SinkWriteFailed(op)) ==> !(op is Open),
{
    let ghost c0 = sink.calls();
    match sink.flush() {
        Ok(()) => {},
        Err(_) => {
            assert(c0 =~= sink.calls().subrange(0, c0.len() as int));
            assert(sink.calls().skip(c0.len() as int).drop_last() =~= Seq::<SinkCall>::empty());
            return Err(BodyError::SinkWriteFailed(SinkOp::Flush));
        },
    }
    sink.block();
    let r = match sink.check_write() {
        Ok(_) => Ok(()),
        Err(_) => Err(BodyError::SinkWriteFailed(SinkOp::CheckWrite)),
    };
    assert(c0 =~= sink.calls().subrange(0, c0.len() as int));
    assert(sink.calls().skip(c0.len() as int) =~= seq![
        sink.calls()[c0.len() as int],
        sink.calls()[c0.len() as int + 1],
        sink.calls()[c0.len() as int + 2],
    ]);
    assert(sink.calls().skip(c0.len() as int).drop_last() =~= seq![SinkCall::Flush(true), SinkCall::Block]);
    r
}

/// Writes a whole buffer into the sink, respecting its permits. An empty
/// buffer leaves the sink untouched. An error names the sink operation that
/// failed; what was written by then is a first part of the buffer.
pub fn write_to_outgoing_body<K: ChunkSink>(sink: &mut K, buf: &[u8]) -> (r: Result<(), BodyError>)
    ensures
        buf@.len() == 0 ==> (r is Ok && *final(sink) == *old(sink)),
        old(sink).healthy() ==> r is Ok,
        r is Ok ==> final(sink).written() == old(sink).written() + buf@,
        r matches Err(e) ==> e is SinkWriteFailed,
        old(sink).written().is_prefix_of(final(sink).written()),
        final(sink).written().is_prefix_of(old(sink).written() + buf@),
        old(sink).calls().is_prefix_of(final(sink).calls()),
        buf@.len() > 0 && r is Ok ==> transfer_calls(
            final(sink).calls().skip(old(sink).calls().len() as int),
            buf@,
        ),
        r matches Err(BodyError::SinkWriteFailed(op)) ==> last_call_failed(final(sink).calls(), op),
        r is Err ==> all_succeeded(final(sink).calls().skip(old(sink).calls().len() as int).drop_last()),
{
    let ghost c0 = sink.calls();
    assert(c0 =~= c0.subrange(0, c0.len() as int));
    proof {
        lemma_prefix_of_longer(old(sink).written(), Seq::empty(), buf@);
        assert(old(sink).written() + Seq::<u8>::empty() =~= old(sink).written());
        assert(old(sink).written() + (Seq::<u8>::empty() + buf@) =~= old(sink).written() + buf@);
        assert(old(sink).written().subrange(0, old(sink).written().len() as int) =~= old(
            sink,
        ).written());
    }
    if buf.len() == 0 {
        assert(old(sink).written() + buf@ =~= old(sink).written());
        return Ok(());
    }
    match sink.open() {
        Ok(()) => {},
        Err(_) => {
            assert(c0 =~= sink.calls().subrange(0, c0.len() as int));
            assert(sink.calls().skip(c0.len() as int).drop_last() =~= Seq::<SinkCall>::empty());
            return Err(BodyError::SinkWriteFailed(SinkOp::Open));
        },
    }
    let ghost c1 = sink.calls();
    assert(c0 =~= c1.subrange(0, c0.len() as int));
    match write_permitted(sink, buf) {
        Ok(()) => {},
        Err(e) => {
            proof {
                lemma_prefix_trans(c0, c1, sink.calls());
                let w = sink.calls().skip(c1.len() as int);
                assert(sink.calls() =~= c1 + w);
                assert(sink.calls().skip(c0.len() as int).drop_last() =~= seq![SinkCall::Open(true)] + w.drop_last());
            }
            return Err(e);
        },
    }
    let ghost c2 = sink.calls();
    let r = finish_writes(sink);
    proof {
        let c3 = sink.calls();
        lemma_prefix_trans(c0, c1, c2);
        lemma_prefix_trans(c0, c2, c3);
        let nc = c2.skip(c1.len() as int);
        let cl = c3.skip(c2.len() as int);
        assert(c2 =~= c1 + nc);
        assert(c3 =~= c2 + cl);
        if r is Err {
            assert(c3.skip(c0.len() as int).drop_last() =~= seq![SinkCall::Open(true)] + nc + cl.drop_last());
        }
        if r is Ok {
            let new = c3.skip(c0.len() as int);
            assert(c2 =~= c1 + nc);
            assert(c3 =~= c2 + cl);
            assert(c1 =~= c0.push(SinkCall::Open(true)));
            assert(new =~= seq![SinkCall::Open(true)] + nc + cl);
            assert(new.subrange(1, new.len() - 3) =~= nc);
            assert(new.subrange(new.len() - 3, new.len() as int) =~= cl);
        }
    }
    r
}

/// The chunks that successful requests handed out, in order.
pub open spec fn chunks_of(ps: Seq<Pull>) -> Seq<Seq<u8>> {
    ps.map_values(
        |p: Pull|
            match p.got {
                Some(c) => c,
                None => Seq::empty(),
            },
    )
}

/// Requests that all succeeded and handed out something.
pub open spec fn all_nonempty(ps: Seq<Pull>) -> bool {
    forall|i: int| 0 <= i < ps.len() ==> ((#[trigger] ps[i]).got matches Some(c) && c.len() > 0)
}

/// Runs of paced writes, one for each chunk in order, each writing its chunk
/// in full.
pub open spec fn paced_chunks(calls: Seq<SinkCall>, chunks: Seq<Seq<u8>>) -> bool
    decreases chunks.len(),
{
    if chunks.len() == 0 {
        calls.len() == 0
    } else {
        exists|k: int|
            #![trigger calls.take(k)]
            0 <= k <= calls.len() && paced_chunks(calls.take(k), chunks.drop_last()) && paced(
                calls.skip(k),
                chunks.last(),
            ) && sent(calls.skip(k)) == chunks.last()
    }
}

/// Streams everything a producer yields into the sink. It opens the sink
/// once, then pulls [`STREAM_CHUNK_SIZE`] bytes at most at a time and writes
/// each chunk in full, paced by the sink's permits, before the next pull;
/// after the empty pull that ends the producer it closes the transfer. On an
/// error nothing more is asked of the sink or the producer.
#[verifier::rlimit(100)]
#[verifier::spinoff_prover]
pub fn stream_to_outgoing_body<K: ChunkSink, S: ByteSource>(sink: &mut K, reader: &mut S) -> (r:
    Result<(), BodyError>)
    ensures
        old(sink).healthy() && old(reader).healthy() ==> r is Ok,
        r is Ok ==> final(sink).written() == old(sink).written() + old(reader).unread(),
        r is Ok ==> final(reader).unread().len() == 0,
        r matches Err(e) ==> (e is SinkWriteFailed || e is SourceReadFailed),
        old(sink).written().is_prefix_of(final(sink).written()),
        final(sink).written().is_prefix_of(old(sink).written() + old(reader).unread()),
        old(sink).calls().is_prefix_of(final(sink).calls()),
        old(reader).pulls().is_prefix_of(final(reader).pulls()),
        stream_pulls(final(reader).pulls().skip(old(reader).pulls().len() as int)),
        r is Ok ==> streamed_ok(
            final(sink).calls().skip(old(sink).calls().len() as int),
            final(reader).pulls().skip(old(reader).pulls().len() as int),
        ),
        r == Err::<(), BodyError>(BodyError::SourceReadFailed) ==> source_failed(
            final(sink).calls().skip(old(sink).calls().len() as int),
            final(reader).pulls().skip(old(reader).pulls().len() as int),
        ),
        r matches Err(BodyError::SinkWriteFailed(op)) ==> {
            &&& last_call_failed(final(sink).calls(), op)
            &&& all_succeeded(final(sink).calls().skip(old(sink).calls().len() as int).drop_last())
            &&& pulls_succeeded(final(reader).pulls().skip(old(reader).pulls().len() as int))
            &&& (op is Open ==> final(reader).pulls() == old(reader).pulls())
        },
{
    let ghost c0 = sink.calls();
    let ghost pulls_before = reader.pulls();
    assert(c0 =~= c0.subrange(0, c0.len() as int));
    assert(pulls_before =~= pulls_before.subrange(0, pulls_before.len() as int));
    proof {
        lemma_prefix_of_longer(old(sink).written(), Seq::empty(), old(reader).unread());
        assert(old(sink).written() + Seq::<u8>::empty() =~= old(sink).written());
        assert(old(sink).written() + (Seq::<u8>::empty() + old(reader).unread()) =~= old(
            sink,
        ).written() + old(reader).unread());
        assert(old(sink).written().subrange(0, old(sink).written().len() as int) =~= old(
            sink,
        ).written());
        assert(pulls_before.skip(pulls_before.len() as int) =~= Seq::<Pull>::empty());
    }
    match sink.open() {
        Ok(()) => {},
        Err(_) => {
            assert(c0 =~= sink.calls().subrange(0, c0.len() as int));
            assert(sink.calls().skip(c0.len() as int).drop_last() =~= Seq::<SinkCall>::empty());
            return Err(BodyError::SinkWriteFailed(SinkOp::Open));
        },
    }
    let ghost c1 = sink.calls();
    assert(c0 =~= c1.subrange(0, c0.len() as int));
    let ghost consumed: Seq<u8> = Seq::empty();
    let ghost mid: Seq<SinkCall> = Seq::empty();
    assert(sink.written() =~= old(sink).written() + consumed);
    assert(old(reader).unread() =~= consumed + reader.unread());
    assert(c1 + mid =~= c1);
    assert(chunks_of(reader.pulls().skip(pulls_before.len() as int)) =~= Seq::<Seq<u8>>::empty());
    loop
        invariant
            c0 == old(sink).calls(),
            pulls_before == old(reader).pulls(),
            c1 == c0.push(SinkCall::Open(true)),
            old(reader).unread() == consumed + reader.unread(),
            sink.written() == old(sink).written() + consumed,
            old(sink).healthy() ==> sink.healthy(),
            old(reader).healthy() ==> reader.healthy(),
            sink.calls() == c1 + mid,
            all_succeeded(mid),
            pulls_before.is_prefix_of(reader.pulls()),
            all_nonempty(reader.pulls().skip(pulls_before.len() as int)),
            stream_pulls(reader.pulls().skip(pulls_before.len() as int)),
            paced_chunks(mid, chunks_of(reader.pulls().skip(pulls_before.len() as int))),
        decreases reader.unread().len(),
    {
        proof {
            lemma_prefix_of_longer(old(sink).written(), consumed, reader.unread());
        }
        let ghost before = reader.unread();
        let ghost pb = reader.pulls();
        let chunk = match reader.pull(STREAM_CHUNK_SIZE) {
            Ok(c) => c,
            Err(_) => {
                proof {
                    let np = reader.pulls().skip(pulls_before.len() as int);
                    assert(np =~= pb.skip(pulls_before.len() as int).push(Pull { max: STREAM_CHUNK_SIZE, got: None }));
                    assert(np.drop_last() =~= pb.skip(pulls_before.len() as int));
                    assert(reader.pulls().subrange(0, pulls_before.len() as int) =~= pb.subrange(0, pulls_before.len() as int));
                    assert(sink.calls().skip(c0.len() as int) =~= seq![SinkCall::Open(true)] + mid);
                    assert((seq![SinkCall::Open(true)] + mid).skip(1) =~= mid);
                    assert(c0 =~= sink.calls().subrange(0, c0.len() as int));
                }
                return Err(BodyError::SourceReadFailed);
            },
        };
        let ghost np1 = reader.pulls().skip(pulls_before.len() as int);
        proof {
            assert(np1 =~= pb.skip(pulls_before.len() as int).push(Pull { max: STREAM_CHUNK_SIZE, got: Some(chunk@) }));
            assert(reader.pulls().subrange(0, pulls_before.len() as int) =~= pb.subrange(0, pulls_before.len() as int));
            assert(np1.drop_last() =~= pb.skip(pulls_before.len() as int));
            assert forall|i: int| 0 <= i < np1.len() implies (#[trigger] np1[i]).got is Some by {
                if i < np1.len() - 1 {
                    assert(np1[i] == np1.drop_last()[i]);
                }
            }
            assert(pulls_succeeded(np1));
        }
        if chunk.len() == 0 {
            assert(before.len() == 0);
            assert(reader.unread() =~= before);
            assert(consumed =~= old(reader).unread());
            proof {
                lemma_prefix_of_longer(old(sink).written(), consumed, Seq::empty());
                assert(old(sink).written() + consumed + Seq::<u8>::empty() =~= old(sink).written()
                    + consumed);
                assert(np1.drop_last() =~= pb.skip(pulls_before.len() as int));
                assert(chunk@ =~= Seq::<u8>::empty());
                assert(np1.last().got == Some(Seq::<u8>::empty()));
                assert(all_nonempty(np1.drop_last()));
                assert forall|i: int| 0 <= i < np1.len() implies (#[trigger] np1[i]).got is Some by {
                    if i < np1.len() - 1 {
                        assert(np1[i] == np1.drop_last()[i]);
                    }
                }
                assert(chunks_of(np1.drop_last()) =~= chunks_of(pb.skip(pulls_before.len() as int)));
                assert(pulls_before.is_prefix_of(reader.pulls()));
            }
            let ghost c2 = sink.calls();
            let r = finish_writes(sink);
            proof {
                let c3 = sink.calls();
                let cl = c3.skip(c2.len() as int);
                assert(c3 =~= c2 + cl);
                assert(c0 =~= c3.subrange(0, c0.len() as int));
                let new = c3.skip(c0.len() as int);
                assert(new =~= seq![SinkCall::Open(true)] + mid + cl);
                if r is Ok {
                    assert(new.subrange(1, new.len() - 3) =~= mid);
                    assert(new.subrange(new.len() - 3, new.len() as int) =~= cl);
                    assert(streamed_ok(new, np1));
                } else {
                    assert(new.drop_last() =~= seq![SinkCall::Open(true)] + mid + cl.drop_last());
                }
            }
            return r;
        }
        let ghost w0 = sink.written();
        let ghost cb = sink.calls();
        proof {
            assert(old(reader).unread() =~= (consumed + chunk@) + reader.unread());
            lemma_prefix_of_longer(old(sink).written(), consumed + chunk@, reader.unread());
            assert(w0 + chunk@ =~= old(sink).written() + (consumed + chunk@));
            assert(old(sink).written() + ((consumed + chunk@) + reader.unread()) =~= old(
                sink,
            ).written() + old(reader).unread());
        }
        match write_permitted(sink, chunk.as_slice()) {
            Ok(()) => {},
            Err(e) => {
                proof {
                    lemma_prefix_of_longer(old(sink).written(), consumed, chunk@);
                    lemma_prefix_trans(old(sink).written(), w0, sink.written());
                    lemma_prefix_trans(
                        sink.written(),
                        w0 + chunk@,
                        old(sink).written() + old(reader).unread(),
                    );
                    let w = sink.calls().skip(cb.len() as int);
                    assert(sink.calls() =~= cb + w);
                    assert(sink.calls().skip(c0.len() as int).drop_last() =~= seq![SinkCall::Open(true)] + mid + w.drop_last());
                    assert(c0 =~= sink.calls().subrange(0, c0.len() as int));
                }
                return Err(e);
            },
        }
        proof {
            let w = sink.calls().skip(cb.len() as int);
            assert(sink.calls() =~= cb + w);
            let mid2 = mid + w;
            let ch = chunks_of(np1);
            assert(ch.drop_last() =~= chunks_of(pb.skip(pulls_before.len() as int)));
            assert(ch.last() == chunk@);
            assert(mid2.take(mid.len() as int) =~= mid);
            assert(mid2.skip(mid.len() as int) =~= w);
            assert(paced_chunks(mid2, ch));
            assert(sink.written() =~= old(sink).written() + (consumed + chunk@));
            consumed = consumed + chunk@;
            mid = mid2;
            assert(sink.calls() =~= c1 + mid);
        }
    }
}

/// The library's side of an incoming body's byte stream.
pub struct InputStream<S> {
    source: S,
}

impl<S: ByteSource> InputStream<S> {
    pub closed spec fn unread(&self) -> Seq<u8> {
        self.source.unread()
    }

    /// Whether reads of the stream succeed.
    pub closed spec fn healthy(&self) -> bool {
        self.source.healthy()
    }

    /// The requests made of the stream's source so far, in order.
    pub closed spec fn pulls(&self) -> Seq<Pull> {
        self.source.pulls()
    }

    pub fn new(source: S) -> (r: InputStream<S>)
        ensures
            r.unread() == source.unread(),
            r.healthy() == source.healthy(),
    {
        InputStream { source }
    }

    /// The next chunk of at most `len` bytes, or `None` once the stream has
    /// closed.
    pub fn chunk(&mut self, len: usize) -> (r: Result<Option<Vec<u8>>, BodyError>)
        ensures
            r matches Ok(Some(v)) ==> {
                &&& v@.len() <= len
                &&& old(self).unread() == v@ + final(self).unread()
                &&& (len > 0 ==> v@.len() > 0)
            },
            r matches Ok(None) ==> len > 0 && old(self).unread().len() == 0
                && final(self).unread().len() == 0,
            r is Err ==> r == Err::<Option<Vec<u8>>, BodyError>(BodyError::SourceReadFailed),
            len == 0 ==> (r matches Ok(Some(v)) && v@.len() == 0 && *final(self) == *old(self)),
            len > 0 ==> final(self).pulls() == old(self).pulls().push(
                Pull {
                    max: len,
                    got: match r {
                        Ok(Some(v)) => Some(v@),
                        Ok(None) => Some(Seq::empty()),
                        Err(_) => None,
                    },
                },
            ),
            r matches Ok(None) ==> old(self).healthy(),
            !old(self).healthy() && r is Ok ==> !final(self).healthy(),
            old(self).healthy() ==> (r is Ok && final(self).healthy()),
            r is Ok && len > 0 && old(self).unread().len() == 0 ==> r matches Ok(None),
    {
        if len == 0 {
            let v: Vec<u8> = Vec::new();
            assert(old(self).unread() =~= v@ + self.unread());
            return Ok(Some(v));
        }
        match self.source.pull(len) {
            Ok(v) => {
                if v.len() == 0 {
                    assert(v@ =~= Seq::<u8>::empty());
                    Ok(None)
                } else {
                    Ok(Some(v))
                }
            },
            Err(_) => Err(BodyError::SourceReadFailed),
        }
    }
}

/// An incoming body being read through its stream.
pub struct IncomingBodyStream<S> {
    input_stream: InputStream<S>,
}

impl<S: ByteSource> IncomingBodyStream<S> {
    pub closed spec fn unread(&self) -> Seq<u8> {
        self.input_stream.unread()
    }

    /// Whether reads of the stream succeed.
    pub closed spec fn healthy(&self) -> bool {
        self.input_stream.healthy()
    }

    /// Takes the body's stream; a body hands out its stream once.
    pub fn from(source: S) -> (r: IncomingBodyStream<S>)
        ensures
            r.unread() == source.unread(),
            r.healthy() == source.healthy(),
    {
        IncomingBodyStream { input_stream: InputStream::new(source) }
    }
}

/// A message body: bytes in memory, a live incoming stream, or a producer
/// for outgoing content.
pub enum Body<S> {
    Bytes(Vec<u8>),
    Stream(IncomingBodyStream<S>),
    Reader(S),
}

impl<S: ByteSource> Body<S> {
    /// The bytes this body still holds or will yield.
    pub open spec fn content(&self) -> Seq<u8> {
        match self {
            Body::Bytes(v) => v@,
            Body::Stream(s) => s.unread(),
            Body::Reader(r) => r.unread(),
        }
    }

    /// Whether reading the body cannot fail.
    pub open spec fn healthy(&self) -> bool {
        match self {
            Body::Bytes(_) => true,
            Body::Stream(s) => s.healthy(),
            Body::Reader(r) => r.healthy(),
        }
    }

    /// The next chunk of at most `len` bytes of an incoming stream, or `None`
    /// once it has closed. Bodies in memory and producers answer `None`: they
    /// are read as a whole.
    pub fn chunk(&mut self, len: usize) -> (r: Result<Option<Vec<u8>>, BodyError>)
        ensures
            !(*old(self) is Stream) ==> (r matches Ok(None) && *final(self) == *old(self)),
            *old(self) is Stream ==> *final(self) is Stream,
            *old(self) is Stream ==> (r matches Ok(Some(v)) ==> {
                &&& v@.len() <= len
                &&& old(self).content() == v@ + final(self).content()
                &&& (len > 0 ==> v@.len() > 0)
            }),
            *old(self) is Stream ==> (r matches Ok(None) ==> len > 0 && old(self).content().len()
                == 0 && final(self).content().len() == 0),
            *old(self) is Stream ==> (r is Ok && len > 0 && old(self).content().len() == 0
                ==> r matches Ok(None)),
            *old(self) is Stream && len == 0 ==> (r matches Ok(Some(v)) && v@.len() == 0),
            old(self).healthy() ==> (r is Ok && final(self).healthy()),
            r is Err ==> r == Err::<Option<Vec<u8>>, BodyError>(BodyError::SourceReadFailed),
    {
        match self {
            Body::Bytes(_) => Ok(None),
            Body::Stream(s) => s.input_stream.chunk(len),
            Body::Reader(_) => Ok(None),
        }
    }

    /// Everything the body holds or yields, as one buffer.
    pub fn bytes(self) -> (r: Result<Vec<u8>, BodyError>)
        ensures
            self matches Body::Bytes(d) ==> r == Ok::<Vec<u8>, BodyError>(d),
            r matches Ok(v) ==> v@ == self.content(),
            r is Err ==> r == Err::<Vec<u8>, BodyError>(BodyError::SourceReadFailed),
            self.healthy() ==> r is Ok,
            !self.healthy() ==> r is Err,
    {
        match self {
            Body::Bytes(data) => Ok(data),
            Body::Stream(s) => {
                let mut s = s;
                let mut body: Vec<u8> = Vec::new();
                loop
                    invariant
                        self is Stream,
                        self.content() == body@ + s.unread(),
                        self.healthy() ==> s.healthy(),
                        !self.healthy() ==> !s.healthy(),
                    decreases s.unread().len(),
                {
                    match s.input_stream.chunk(BODY_CHUNK_SIZE) {
                        Ok(Some(c)) => {
                            append_bytes(&mut body, c.as_slice());
                            assert(self.content() =~= body@ + s.unread());
                        },
                        Ok(None) => {
                            assert(body@ + s.unread() =~= body@);
                            return Ok(body);
                        },
                        Err(e) => {
                            return Err(e);
                        },
                    }
                }
            },
            Body::Reader(reader) => {
                let mut reader = reader;
                let mut body: Vec<u8> = Vec::new();
                loop
                    invariant
                        self is Reader,
                        self.content() == body@ + reader.unread(),
                        self.healthy() ==> reader.healthy(),
                        !self.healthy() ==> !reader.healthy(),
                    decreases reader.unread().len(),
                {
                    match reader.pull(STREAM_CHUNK_SIZE) {
                        Ok(c) => {
                            if c.len() == 0 {
                                assert(body@ + reader.unread() =~= body@);
                                return Ok(body);
                            }
                            append_bytes(&mut body, c.as_slice());
                            assert(self.content() =~= body@ + reader.unread());
                        },
                        Err(_) => {
                            return Err(BodyError::SourceReadFailed);
                        },
                    }
                }
            },
        }
    }
}

/// A sink that keeps in memory what is written to it, granting permits from
/// a fixed cycle.
pub struct MemorySink {
    data: Vec<u8>,
    permits: Vec<u64>,
    next: usize,
    permit: u64,
    ready: bool,
    opened: bool,
    calls: u64,
    log: Ghost<Seq<SinkCall>>,
}

impl MemorySink {
    /// How many writes were made, up to `u64::MAX`.
    pub closed spec fn write_count(&self) -> u64 {
        self.calls
    }

    /// Whether a write transaction was opened.
    pub closed spec fn was_opened(&self) -> bool {
        self.opened
    }

    /// A sink whose permit checks, once it is ready, grant the values of
    /// `permits` in turn (at least one byte each), over and over; with no
    /// values it grants 4096 bytes each time.
    pub fn new(permits: Vec<u64>) -> (r: MemorySink)
        ensures
            r.written().len() == 0,
            r.calls().len() == 0,
            r.write_count() == 0,
            !r.was_opened(),
    {
        MemorySink {
            data: Vec::new(),
            permits,
            next: 0,
            permit: 0,
            ready: false,
            opened: false,
            calls: 0,
            log: Ghost(Seq::empty()),
        }
    }

    /// What was written, in order.
    pub fn data(&self) -> (r: &[u8])
        ensures
            r@ == self.written(),
    {
        self.data.as_slice()
    }

    /// How many times bytes were written, up to `u64::MAX`.
    pub fn write_calls(&self) -> (r: u64)
        ensures
            r == self.write_count(),
    {
        self.calls
    }

    /// Whether a write transaction was opened.
    pub fn opened(&self) -> (r: bool)
        ensures
            r == self.was_opened(),
    {
        self.opened
    }
}

impl ChunkSink for MemorySink {
    closed spec fn written(&self) -> Seq<u8> {
        self.data@
    }

    closed spec fn permit(&self) -> nat {
        self.permit as nat
    }

    closed spec fn ready(&self) -> bool {
        self.ready
    }

    closed spec fn healthy(&self) -> bool {
        true
    }

    closed spec fn calls(&self) -> Seq<SinkCall> {
        self.log@
    }

    fn open(&mut self) -> (r: Result<(), ()>) {
        self.opened = true;
        self.log = Ghost(self.log@.push(SinkCall::Open(true)));
        Ok(())
    }

    fn block(&mut self) {
        self.ready = true;
        self.log = Ghost(self.log@.push(SinkCall::Block));
    }

    fn check_write(&mut self) -> (r: Result<u64, ()>) {
        if !self.ready {
            self.permit = 0;
            self.log = Ghost(self.log@.push(SinkCall::CheckWrite(Some(0))));
            return Ok(0);
        }
        let n = self.permits.len();
        let granted: u64 = if n == 0 {
            4096
        } else {
            let i = if self.next < n {
                self.next
            } else {
                0
            };
            self.next = if i + 1 < n {
                i + 1
            } else {
                0
            };
            if self.permits[i] == 0 {
                1
            } else {
                self.permits[i]
            }
        };
        self.permit = granted;
        self.ready = false;
        self.log = Ghost(self.log@.push(SinkCall::CheckWrite(Some(granted))));
        Ok(granted)
    }

    fn write(&mut self, bytes: &[u8]) -> (r: Result<(), ()>) {
        append_bytes(&mut self.data, bytes);
        self.permit = self.permit - bytes.len() as u64;
        if self.calls < u64::MAX {
            self.calls = self.calls + 1;
        }
        self.log = Ghost(self.log@.push(SinkCall::Write(bytes@, true)));
        Ok(())
    }

    fn flush(&mut self) -> (r: Result<(), ()>) {
        self.log = Ghost(self.log@.push(SinkCall::Flush(true)));
        Ok(())
    }
}

} // verus!
