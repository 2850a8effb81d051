//! Newline-delimited framing of one connection's byte stream.
use vstd::prelude::*;
use vstd::seq_lib::lemma_flatten_concat;
use vstd::slice::slice_to_vec;

verus! {

/// The byte that ends each message.
pub const NEWLINE: u8 = 10;

/// The most undelimited bytes a connection may accumulate.
pub const MAX_MESSAGE_LEN: usize = 65536;

/// What scanning `bytes`, after the undelimited bytes `pending`, yields: the
/// complete messages in order and the bytes after the last delimiter; `None`
/// once the undelimited bytes would exceed [`MAX_MESSAGE_LEN`].
pub open spec fn scan(pending: Seq<u8>, bytes: Seq<u8>) -> Option<(Seq<Seq<u8>>, Seq<u8>)>
    decreases bytes.len(),
{
    if bytes.len() == 0 {
        Some((Seq::empty(), pending))
    } else {
        match scan(pending, bytes.drop_last()) {
            None => None,
            Some((frames, rest)) => if bytes.last() == NEWLINE {
                Some((frames.push(rest), Seq::empty()))
            } else if rest.len() >= MAX_MESSAGE_LEN {
                None
            } else {
                Some((frames, rest.push(bytes.last())))
            },
        }
    }
}

/// The contents of each message.
pub open spec fn frames_of(frames: Seq<Vec<u8>>) -> Seq<Seq<u8>> {
    frames.map_values(|f: Vec<u8>| f@)
}

/// Why a connection's stream was rejected.
#[derive(Clone, Copy, Debug, PartialEq, Eq)]
pub enum FrameError {
    /// More than [`MAX_MESSAGE_LEN`] bytes came without a delimiter.
    Oversize,
}

/// Splits one connection's byte stream into newline-delimited messages,
/// whatever the boundaries at which the bytes arrive.
pub struct FrameDecoder {
    buffer: Vec<u8>,
}

impl FrameDecoder {
    /// The bytes received after the last delimiter.
    pub closed spec fn pending(&self) -> Seq<u8> {
        self.buffer@
    }

    /// The pending bytes hold no delimiter and fit the limit.
    pub closed spec fn wf(&self) -> bool {
        &&& self.buffer@.len() <= MAX_MESSAGE_LEN
        &&& !self.buffer@.contains(NEWLINE)
    }

    /// A decoder that has received nothing.
    pub fn new() -> (r: FrameDecoder)
        ensures
            r.wf(),
            r.pending() == Seq::<u8>::empty(),
    {
        FrameDecoder { buffer: Vec::new() }
    }

    /// The number of bytes received after the last delimiter.
    pub fn pending_len(&self) -> (r: usize)
        ensures
            r == self.pending().len(),
    {
        self.buffer.len()
    }

    /// Appends `chunk` to the pending bytes and takes out every complete
    /// message, in order; the bytes after the last delimiter stay pending.
    /// When the undelimited bytes would exceed [`MAX_MESSAGE_LEN`] the stream
    /// is rejected, no message of this chunk is returned and nothing stays
    /// pending.
    pub fn feed(&mut self, chunk: &[u8]) -> (r: Result<Vec<Vec<u8>>, FrameError>)
        requires
            old(self).wf(),
        ensures
            final(self).wf(),
            match scan(old(self).pending(), chunk@) {
                Some((frames, rest)) => r is Ok && frames_of(r->Ok_0@) == frames
                    && final(self).pending() == rest,
                None => r == Err::<Vec<Vec<u8>>, FrameError>(FrameError::Oversize)
                    && final(self).pending() == Seq::<u8>::empty(),
            },
    {
        let ghost start = old(self).pending();
        let mut frames: Vec<Vec<u8>> = Vec::new();
        let mut i: usize = 0;
        while i < chunk.len()
            invariant
                i <= chunk@.len(),
                start == old(self).pending(),
                self.wf(),
                scan(start, chunk@.take(i as int)) == Some((frames_of(frames@), self.buffer@)),
            decreases chunk@.len() - i,
        {
            let b = chunk[i];
            let ghost prefix = chunk@.take(i as int);
            proof {
                assert(chunk@.take(i + 1).drop_last() =~= prefix);
            }
            if b == NEWLINE {
                let ghost before = frames@;
                let mut message: Vec<u8> = Vec::new();
                std::mem::swap(&mut message, &mut self.buffer);
                frames.push(message);
                proof {
                    assert(frames_of(frames@) =~= frames_of(before).push(message@));
                }
            } else if self.buffer.len() >= MAX_MESSAGE_LEN {
                self.buffer.clear();
                proof {
                    assert(chunk@.take(i + 1).last() == b);
                    assert(scan(start, chunk@.take(i + 1)) is None);
                    lemma_scan_fails_after(start, chunk@.take(i + 1), chunk@);
                }
                return Err(FrameError::Oversize);
            } else {
                self.buffer.push(b);
            }
            i = i + 1;
        }
        proof {
            assert(chunk@.take(i as int) =~= chunk@);
        }
        Ok(frames)
    }
}

/// Once a scan has failed, scanning more bytes fails too.
proof fn lemma_scan_fails_after(pending: Seq<u8>, prefix: Seq<u8>, bytes: Seq<u8>)
    requires
        prefix.len() <= bytes.len(),
        prefix == bytes.take(prefix.len() as int),
        scan(pending, prefix) is None,
    ensures
        scan(pending, bytes) is None,
    decreases bytes.len() - prefix.len(),
{
    if prefix.len() < bytes.len() {
        let longer = bytes.take(prefix.len() as int + 1);
        assert(longer.drop_last() =~= prefix);
        lemma_scan_fails_after(pending, longer, bytes);
    } else {
        assert(prefix =~= bytes);
    }
}

/// What scanning `bytes` gives after an earlier scan that gave `prior`: the
/// earlier messages followed by the new ones, and what then stays pending.
pub open spec fn scan_more(prior: Option<(Seq<Seq<u8>>, Seq<u8>)>, bytes: Seq<u8>) -> Option<
    (Seq<Seq<u8>>, Seq<u8>),
> {
    match prior {
        None => None,
        Some((frames, rest)) => match scan(rest, bytes) {
            None => None,
            Some((more, left)) => Some((frames + more, left)),
        },
    }
}

/// What feeding `chunks`, in order, to a decoder that holds `pending` gives
/// over all: every message returned and what stays pending at the end;
/// `None` once a chunk is rejected.
pub open spec fn feed_all(pending: Seq<u8>, chunks: Seq<Seq<u8>>) -> Option<
    (Seq<Seq<u8>>, Seq<u8>),
>
    decreases chunks.len(),
{
    if chunks.len() == 0 {
        Some((Seq::empty(), pending))
    } else {
        scan_more(feed_all(pending, chunks.drop_last()), chunks.last())
    }
}

/// Scanning two pieces one after the other is scanning them joined.
pub proof fn lemma_scan_concat(pending: Seq<u8>, a: Seq<u8>, b: Seq<u8>)
    ensures
        scan(pending, a + b) == scan_more(scan(pending, a), b),
    decreases b.len(),
{
    if b.len() == 0 {
        assert(a + b =~= a);
        match scan(pending, a) {
            Some((frames, rest)) => {
                assert(frames + Seq::<Seq<u8>>::empty() =~= frames);
            },
            None => {},
        }
    } else {
        lemma_scan_concat(pending, a, b.drop_last());
        assert((a + b).drop_last() =~= a + b.drop_last());
        assert((a + b).last() == b.last());
        match scan(pending, a) {
            None => {},
            Some((frames, rest)) => {
                match scan(rest, b.drop_last()) {
                    None => {},
                    Some((more, left)) => {
                        assert((frames + more).push(left) =~= frames + more.push(left));
                    },
                }
            },
        }
    }
}

/// However a stream is cut into chunks, feeding the chunks in order returns
/// the same messages in the same order, and leaves the same bytes pending, as
/// scanning the whole stream at once.
pub proof fn lemma_chunking_is_irrelevant(pending: Seq<u8>, chunks: Seq<Seq<u8>>)
    ensures
        feed_all(pending, chunks) == scan(pending, chunks.flatten()),
    decreases chunks.len(),
{
    if chunks.len() == 0 {
        assert(chunks.flatten() =~= Seq::<u8>::empty());
    } else {
        lemma_chunking_is_irrelevant(pending, chunks.drop_last());
        chunks.drop_last().lemma_flatten_push(chunks.last());
        assert(chunks.drop_last().push(chunks.last()) =~= chunks);
        lemma_scan_concat(pending, chunks.drop_last().flatten(), chunks.last());
    }
}

/// Undelimited bytes stay pending up to the limit and are rejected past it.
proof fn lemma_scan_undelimited(t: Seq<u8>)
    requires
        !t.contains(NEWLINE),
    ensures
        t.len() <= MAX_MESSAGE_LEN ==> scan(Seq::empty(), t) == Some(
            (Seq::<Seq<u8>>::empty(), t),
        ),
        t.len() > MAX_MESSAGE_LEN ==> scan(Seq::empty(), t) is None,
    decreases t.len(),
{
    if t.len() > 0 {
        let shorter = t.drop_last();
        assert(!shorter.contains(NEWLINE)) by {
            if shorter.contains(NEWLINE) {
                let k = choose|k: int| 0 <= k < shorter.len() && shorter[k] == NEWLINE;
                assert(t[k] == NEWLINE);
            }
        }
        assert(t.last() != NEWLINE) by {
            assert(t[t.len() - 1] == t.last());
        }
        lemma_scan_undelimited(shorter);
        assert(shorter.push(t.last()) =~= t);
    }
}

/// A stream whose first `MAX_MESSAGE_LEN + 1` bytes hold no delimiter is
/// rejected, however it is cut into chunks, and no chunk fed before the
/// rejection returns a message.
pub proof fn lemma_oversize_rejected(chunks: Seq<Seq<u8>>)
    requires
        chunks.flatten().len() > MAX_MESSAGE_LEN,
        forall|k: int| 0 <= k <= MAX_MESSAGE_LEN ==> #[trigger] chunks.flatten()[k] != NEWLINE,
    ensures
        feed_all(Seq::empty(), chunks) is None,
        forall|k: int|
            0 <= k <= chunks.len() && #[trigger] feed_all(Seq::empty(), chunks.take(k)) is Some
                ==> feed_all(Seq::empty(), chunks.take(k))->Some_0.0.len() == 0,
{
    let s = chunks.flatten();
    assert forall|k: int|
        0 <= k <= chunks.len() implies #[trigger] feed_all(Seq::empty(), chunks.take(k)) is None
        || feed_all(Seq::empty(), chunks.take(k))->Some_0.0.len() == 0 by {
        let t = chunks.take(k).flatten();
        lemma_flatten_concat(chunks.take(k), chunks.skip(k));
        assert(chunks.take(k) + chunks.skip(k) =~= chunks);
        assert(t =~= s.take(t.len() as int));
        lemma_chunking_is_irrelevant(Seq::empty(), chunks.take(k));
        if t.len() <= MAX_MESSAGE_LEN {
            assert(!t.contains(NEWLINE)) by {
                if t.contains(NEWLINE) {
                    let j = choose|j: int| 0 <= j < t.len() && t[j] == NEWLINE;
                    assert(s[j] == NEWLINE);
                }
            }
            lemma_scan_undelimited(t);
        } else {
            let u = t.take(MAX_MESSAGE_LEN as int + 1);
            assert(!u.contains(NEWLINE)) by {
                if u.contains(NEWLINE) {
                    let j = choose|j: int| 0 <= j < u.len() && u[j] == NEWLINE;
                    assert(s[j] == NEWLINE);
                }
            }
            lemma_scan_undelimited(u);
            lemma_scan_fails_after(Seq::empty(), u, t);
        }
    }
    assert(chunks.take(chunks.len() as int) =~= chunks);
    let u = s.take(MAX_MESSAGE_LEN as int + 1);
    assert(!u.contains(NEWLINE)) by {
        if u.contains(NEWLINE) {
            let j = choose|j: int| 0 <= j < u.len() && u[j] == NEWLINE;
            assert(s[j] == NEWLINE);
        }
    }
    lemma_scan_undelimited(u);
    lemma_scan_fails_after(Seq::empty(), u, s);
    lemma_chunking_is_irrelevant(Seq::empty(), chunks);
}

/// `payload` followed by the delimiter: one message as it goes on the wire.
pub fn frame_message(payload: &[u8]) -> (r: Vec<u8>)
    ensures
        r@ == payload@.push(NEWLINE),
{
    let mut out = slice_to_vec(payload);
    out.push(NEWLINE);
    out
}

/// A message framed for the wire comes out of a fresh decoder whole, with
/// nothing left pending, when it holds no delimiter and fits the limit.
pub proof fn lemma_frame_round_trip(payload: Seq<u8>)
    requires
        !payload.contains(NEWLINE),
        payload.len() <= MAX_MESSAGE_LEN,
    ensures
        scan(Seq::empty(), payload.push(NEWLINE)) == Some(
            (seq![payload], Seq::<u8>::empty()),
        ),
{
    lemma_scan_undelimited(payload);
    assert(payload.push(NEWLINE).drop_last() =~= payload);
    assert(Seq::<Seq<u8>>::empty().push(payload) =~= seq![payload]);
}

} // verus!
