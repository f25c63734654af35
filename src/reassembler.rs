//! Recovering complete frames from a byte stream that arrives in chunks.
use vstd::prelude::*;
use crate::wire::{first_in, lemma_first_in, lemma_first_in_is, soh_from_pred, EQ, SOH};

verus! {

/// The checksum key `10=` at index `i`, at the start of a field (the start of
/// the buffer, or just after a delimiter), with at least one byte after it.
/// Keying on field starts keeps a tag such as `6010` from being read as the
/// checksum key.
pub open spec fn checksum_key_at(s: Seq<u8>, i: int) -> bool {
    0 <= i && i + 3 < s.len() && s[i] == 49 && s[i + 1] == 48 && s[i + 2] == EQ && (i == 0
        || s[i - 1] == SOH)
}

pub open spec fn checksum_key_pred(s: Seq<u8>) -> spec_fn(int) -> bool {
    |i: int| checksum_key_at(s, i)
}

/// The index of the delimiter that ends the first complete frame of `s`: the
/// delimiter that closes the first checksum field. A value that holds a
/// delimiter followed by `10=` still ends a frame early: values carry no
/// delimiter by contract.
pub open spec fn frame_end(s: Seq<u8>) -> Option<int> {
    match first_in(checksum_key_pred(s), s.len() as int) {
        Some(i) => first_in(soh_from_pred(s, i + 3), s.len() as int),
        None => None,
    }
}

/// The complete frames at the front of `s`, in order, and the bytes left
/// after the last of them.
pub open spec fn split_frames(s: Seq<u8>) -> (Seq<Seq<u8>>, Seq<u8>)
    decreases s.len(),
{
    match frame_end(s) {
        Some(e) => if 0 <= e < s.len() {
            let rest = split_frames(s.subrange(e + 1, s.len() as int));
            (seq![s.subrange(0, e + 1)] + rest.0, rest.1)
        } else {
            (seq![], s)
        },
        None => (seq![], s),
    }
}

/// The frames yielded, and the bytes left buffered, after feeding `chunks` in
/// order to a reassembler that holds `pending`.
pub open spec fn feed_all(pending: Seq<u8>, chunks: Seq<Seq<u8>>) -> (Seq<Seq<u8>>, Seq<u8>)
    decreases chunks.len(),
{
    if chunks.len() == 0 {
        (seq![], pending)
    } else {
        let first = split_frames(pending + chunks[0]);
        let rest = feed_all(first.1, chunks.drop_first());
        (first.0 + rest.0, rest.1)
    }
}

/// A frame end lies inside the buffer, on a delimiter.
pub proof fn lemma_frame_end_bounds(s: Seq<u8>)
    ensures
        frame_end(s) matches Some(e) ==> 0 <= e < s.len() && s[e] == SOH,
{
    lemma_first_in(checksum_key_pred(s), s.len() as int);
    if let Some(i) = first_in(checksum_key_pred(s), s.len() as int) {
        lemma_first_in(soh_from_pred(s, i + 3), s.len() as int);
    }
}

/// Bytes that arrive later do not move the end of a frame already complete.
pub proof fn lemma_frame_end_extend(s: Seq<u8>, t: Seq<u8>)
    requires
        frame_end(s) is Some,
    ensures
        frame_end(s + t) == frame_end(s),
{
    let u = s + t;
    let kp = checksum_key_pred(s);
    let ku = checksum_key_pred(u);
    lemma_first_in(kp, s.len() as int);
    let i = first_in(kp, s.len() as int)->Some_0;
    assert forall|j: int| 0 <= j < i implies !#[trigger] ku(j) by {
        assert(!kp(j));
        if checksum_key_at(u, j) {
            assert(u[j] == s[j] && u[j + 1] == s[j + 1] && u[j + 2] == s[j + 2]);
            if j > 0 {
                assert(u[j - 1] == s[j - 1]);
            }
        }
    }
    assert(ku(i)) by {
        assert(u[i] == s[i] && u[i + 1] == s[i + 1] && u[i + 2] == s[i + 2]);
        if i > 0 {
            assert(u[i - 1] == s[i - 1]);
        }
    }
    lemma_first_in_is(ku, u.len() as int, i);
    let sp = soh_from_pred(s, i + 3);
    let su = soh_from_pred(u, i + 3);
    lemma_first_in(sp, s.len() as int);
    let e = first_in(sp, s.len() as int)->Some_0;
    assert forall|j: int| 0 <= j < e implies !#[trigger] su(j) by {
        assert(!sp(j));
        assert(u[j] == s[j]);
    }
    assert(su(e)) by {
        assert(u[e] == s[e]);
    }
    lemma_first_in_is(su, u.len() as int, e);
}

/// Feeding `a` and then `b` yields the frames, and leaves the bytes, that
/// feeding `a + b` at once would.
pub proof fn lemma_split_frames_concat(a: Seq<u8>, b: Seq<u8>)
    ensures
        ({
            let first = split_frames(a);
            let second = split_frames(first.1 + b);
            split_frames(a + b) == (first.0 + second.0, second.1)
        }),
    decreases a.len(),
{
    lemma_frame_end_bounds(a);
    match frame_end(a) {
        Some(e) => {
            lemma_frame_end_extend(a, b);
            let tail = a.subrange(e + 1, a.len() as int);
            lemma_split_frames_concat(tail, b);
            assert((a + b).subrange(e + 1, (a + b).len() as int) =~= tail + b);
            assert((a + b).subrange(0, e + 1) =~= a.subrange(0, e + 1));
            let first = split_frames(tail);
            let second = split_frames(first.1 + b);
            assert(seq![a.subrange(0, e + 1)] + first.0 + second.0 =~= seq![a.subrange(0, e + 1)] + (
            first.0 + second.0));
        },
        None => {
            assert(split_frames(a).0 + split_frames(a + b).0 =~= split_frames(a + b).0);
        },
    }
}

/// What stays buffered after the complete frames are taken holds no
/// complete frame.
pub proof fn lemma_split_frames_rest(s: Seq<u8>)
    ensures
        frame_end(split_frames(s).1) is None,
    decreases s.len(),
{
    lemma_frame_end_bounds(s);
    if let Some(e) = frame_end(s) {
        lemma_split_frames_rest(s.subrange(e + 1, s.len() as int));
    }
}

/// Chunking invariance: however a stream is cut into chunks, feeding them in
/// order yields the same frames, in the same order, and leaves the same bytes
/// buffered, as feeding the whole stream at once.
pub proof fn lemma_chunking_invariance(pending: Seq<u8>, chunks: Seq<Seq<u8>>)
    requires
        frame_end(pending) is None,
    ensures
        feed_all(pending, chunks) == split_frames(pending + chunks.flatten()),
    decreases chunks.len(),
{
    if chunks.len() == 0 {
        assert(pending + chunks.flatten() =~= pending);
    } else {
        let c = chunks[0];
        let first = split_frames(pending + c);
        lemma_split_frames_rest(pending + c);
        lemma_chunking_invariance(first.1, chunks.drop_first());
        lemma_split_frames_concat(pending + c, chunks.drop_first().flatten());
        assert(chunks.flatten() == c + chunks.drop_first().flatten());
        assert(pending + chunks.flatten() =~= (pending + c) + chunks.drop_first().flatten());
        let rest = feed_all(first.1, chunks.drop_first());
        assert(feed_all(pending, chunks) == (first.0 + rest.0, rest.1));
    }
}

/// The position of the delimiter that ends the first complete frame in `buf`.
pub fn find_fix_end(buf: &[u8]) -> (r: Option<usize>)
    ensures
        match frame_end(buf@) {
            Some(e) => r matches Some(x) && x as int == e,
            None => r is None,
        },
{
    let ghost s = buf@;
    let mut i: usize = 0;
    while i < buf.len() && buf.len() - i > 3
        invariant
            s == buf@,
            i <= buf.len(),
            first_in(checksum_key_pred(s), i as int) == None::<int>,
        decreases buf.len() - i,
    {
        if buf[i] == 49 && buf[i + 1] == 48 && buf[i + 2] == EQ && (i == 0 || buf[i - 1] == SOH) {
            assert(checksum_key_pred(s)(i as int));
            assert(first_in(checksum_key_pred(s), i + 1) == Some(i as int));
            proof {
                lemma_first_in(checksum_key_pred(s), i as int);
                lemma_first_in_is(checksum_key_pred(s), s.len() as int, i as int);
            }
            let mut j: usize = i + 3;
            while j < buf.len() && buf[j] != SOH
                invariant
                    s == buf@,
                    i + 3 <= j <= buf.len(),
                    forall|k: int| 0 <= k < j ==> !#[trigger] soh_from_pred(s, i + 3)(k),
                decreases buf.len() - j,
            {
                assert(!soh_from_pred(s, i + 3)(j as int));
                j = j + 1;
            }
            if j < buf.len() {
                proof {
                    lemma_first_in_is(soh_from_pred(s, i + 3), s.len() as int, j as int);
                }
                return Some(j);
            }
            proof {
                crate::wire::lemma_first_in_none(soh_from_pred(s, i + 3), s.len() as int);
            }
            return None;
        }
        i = i + 1;
    }
    proof {
        lemma_first_in(checksum_key_pred(s), i as int);
        assert forall|k: int| 0 <= k < s.len() implies !#[trigger] checksum_key_pred(s)(k) by {
            if k >= i {
                assert(k + 3 >= s.len());
            }
        }
        crate::wire::lemma_first_in_none(checksum_key_pred(s), s.len() as int);
    }
    None
}

/// A reassembler for one connection: it buffers the bytes of a frame not yet
/// complete between chunks.
pub struct FixReassembler {
    pending: Vec<u8>,
}

impl View for FixReassembler {
    type V = Seq<u8>;

    closed spec fn view(&self) -> Seq<u8> {
        self.pending@
    }
}

impl FixReassembler {
    /// The buffer never holds a complete frame.
    pub open spec fn wf(&self) -> bool {
        frame_end(self@) is None
    }

    /// A reassembler with nothing buffered.
    pub fn new() -> (r: FixReassembler)
        ensures
            r@ == Seq::<u8>::empty(),
            r.wf(),
    {
        FixReassembler { pending: Vec::new() }
    }

    /// The bytes buffered after the last complete frame.
    pub fn pending(&self) -> (r: &[u8])
        ensures
            r@ == self@,
    {
        self.pending.as_slice()
    }

    /// Appends `chunk` to the buffer and removes and returns, in order, every
    /// complete frame at its front; what follows the last one stays buffered.
    pub fn feed(&mut self, chunk: &[u8]) -> (r: Vec<Vec<u8>>)
        ensures
            r.deep_view() == split_frames(old(self)@ + chunk@).0,
            final(self)@ == split_frames(old(self)@ + chunk@).1,
            final(self).wf(),
    {
        let ghost total = self.pending@ + chunk@;
        let mut k: usize = 0;
        while k < chunk.len()
            invariant
                k <= chunk@.len(),
                total == old(self)@ + chunk@,
                self.pending@ == old(self)@ + chunk@.subrange(0, k as int),
            decreases chunk@.len() - k,
        {
            self.pending.push(chunk[k]);
            k = k + 1;
            assert(chunk@.subrange(0, k as int) == chunk@.subrange(0, k - 1) + seq![chunk@[k - 1]]);
        }
        assert(chunk@.subrange(0, chunk@.len() as int) == chunk@);
        let mut out: Vec<Vec<u8>> = Vec::new();
        loop
            invariant
                total == old(self)@ + chunk@,
                out.deep_view() + split_frames(self.pending@).0 == split_frames(total).0,
                split_frames(self.pending@).1 == split_frames(total).1,
            ensures
                out.deep_view() == split_frames(total).0,
                self.pending@ == split_frames(total).1,
            decreases self.pending@.len(),
        {
            match find_fix_end(self.pending.as_slice()) {
                Some(end) => {
                    let ghost before = self.pending@;
                    proof {
                        lemma_frame_end_bounds(before);
                    }
                    assert(end < self.pending.len());
                    let mut frame = self.pending.split_off(end + 1);
                    std::mem::swap(&mut self.pending, &mut frame);
                    let ghost prev_out = out.deep_view();
                    out.push(frame);
                    assert(frame.deep_view() =~= frame@);
                    assert(out.deep_view() =~= prev_out + seq![frame@]);
                    assert(out.deep_view() + split_frames(self.pending@).0 =~= prev_out
                        + split_frames(before).0);
                },
                None => {
                    assert(split_frames(self.pending@) == (Seq::<Seq<u8>>::empty(), self.pending@));
                    assert(out.deep_view() + split_frames(self.pending@).0 =~= out.deep_view());
                    break;
                },
            }
        }
        proof {
            lemma_split_frames_rest(total);
        }
        out
    }
}

} // verus!
