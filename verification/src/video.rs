//! One record's chunk buffer: an append-only ordered sequence of byte
//! chunks plus a completion flag. Readers address the buffer by total byte
//! offset, not by chunk index.

use vstd::prelude::*;

verus! {

/// The concatenation of a sequence of chunks into one byte sequence.
pub open spec fn flat(chunks: Seq<Seq<u8>>) -> Seq<u8>
    decreases chunks.len(),
{
    if chunks.len() == 0 {
        Seq::empty()
    } else {
        flat(chunks.drop_last()) + chunks.last()
    }
}

/// The views of a sequence of byte vectors.
pub open spec fn views_of(s: Seq<Vec<u8>>) -> Seq<Seq<u8>> {
    Seq::new(s.len(), |i: int| s[i]@)
}

pub proof fn lemma_flat_push(chunks: Seq<Seq<u8>>, c: Seq<u8>)
    ensures
        flat(chunks.push(c)) == flat(chunks) + c,
{
    assert(chunks.push(c).drop_last() =~= chunks);
}

/// Flattening one more chunk appends its bytes.
pub proof fn lemma_flat_take_succ(s: Seq<Seq<u8>>, i: int)
    requires
        0 <= i < s.len(),
    ensures
        flat(s.take(i + 1)) == flat(s.take(i)) + s[i],
{
    assert(s.take(i + 1).drop_last() =~= s.take(i));
    assert(s.take(i + 1).last() == s[i]);
}

/// A prefix of the chunk sequence flattens to at most as many bytes.
pub proof fn lemma_flat_take_len_le(s: Seq<Seq<u8>>, i: int)
    requires
        0 <= i <= s.len(),
    ensures
        flat(s.take(i)).len() <= flat(s).len(),
    decreases s.len() - i,
{
    if i == s.len() {
        assert(s.take(i) =~= s);
    } else {
        lemma_flat_take_succ(s, i);
        lemma_flat_take_len_le(s, i + 1);
    }
}

/// The mathematical model of one record: its accumulated bytes and whether
/// the upload that produced it has finished.
pub ghost struct VideoModel {
    pub bytes: Seq<u8>,
    pub complete: bool,
}

/// One stored blob: an append-only sequence of chunks and a completion
/// flag that is set exactly once and never reverts.
pub struct VideoUpload {
    chunks: Vec<Vec<u8>>,
    total_len: usize,
    is_uploaded: bool,
}

impl View for VideoUpload {
    type V = VideoModel;

    closed spec fn view(&self) -> VideoModel {
        VideoModel { bytes: flat(views_of(self.chunks@)), complete: self.is_uploaded }
    }
}

impl VideoUpload {
    /// The cached total length matches the flattened chunks.
    pub closed spec fn wf(&self) -> bool {
        self.total_len == flat(views_of(self.chunks@)).len()
    }

    /// A fresh record: empty, not yet complete.
    pub fn new() -> (v: VideoUpload)
        ensures
            v.wf(),
            v@.bytes == Seq::<u8>::empty(),
            !v@.complete,
    {
        let v = VideoUpload { chunks: Vec::new(), total_len: 0, is_uploaded: false };
        proof {
            assert(views_of(v.chunks@) =~= Seq::<Seq<u8>>::empty());
        }
        v
    }

    /// Appends one chunk to the buffer. Valid only while the record is
    /// incomplete; the new bytes land after everything appended before.
    pub fn append(&mut self, chunk: Vec<u8>)
        requires
            old(self).wf(),
            !old(self)@.complete,
            old(self)@.bytes.len() + chunk@.len() <= usize::MAX,
        ensures
            final(self).wf(),
            final(self)@.bytes == old(self)@.bytes + chunk@,
            !final(self)@.complete,
    {
        proof {
            lemma_flat_push(views_of(self.chunks@), chunk@);
        }
        let clen = chunk.len();
        self.total_len = self.total_len + clen;
        let ghost pre = views_of(self.chunks@);
        self.chunks.push(chunk);
        proof {
            assert(views_of(self.chunks@) =~= pre.push(chunk@));
        }
    }

    /// Marks the record complete. Idempotent: a second call is a no-op.
    pub fn mark_complete(&mut self)
        requires
            old(self).wf(),
        ensures
            final(self).wf(),
            final(self)@.complete,
            final(self)@.bytes == old(self)@.bytes,
    {
        self.is_uploaded = true;
    }

    /// Whether the upload that produced this record has finished.
    pub fn is_complete(&self) -> (r: bool)
        ensures
            r == self@.complete,
    {
        self.is_uploaded
    }

    /// The total number of bytes stored so far.
    pub fn len(&self) -> (r: usize)
        requires
            self.wf(),
        ensures
            r == self@.bytes.len(),
    {
        self.total_len
    }

    /// Reads everything appended since byte offset `offset`, together with
    /// the new offset and the completion flag, as one consistent snapshot.
    pub fn read_from(&self, offset: usize) -> (r: (Vec<u8>, usize, bool))
        requires
            self.wf(),
            offset <= self@.bytes.len(),
        ensures
            r.0@ == self@.bytes.skip(offset as int),
            r.1 == self@.bytes.len(),
            r.2 == self@.complete,
    {
        let ghost cm = views_of(self.chunks@);
        let mut out: Vec<u8> = Vec::new();
        let mut pos: usize = 0;
        let mut i: usize = 0;
        proof {
            assert(cm.take(0) =~= Seq::<Seq<u8>>::empty());
        }
        while i < self.chunks.len()
            invariant
                self.wf(),
                cm == views_of(self.chunks@),
                i <= self.chunks@.len(),
                pos == flat(cm.take(i as int)).len(),
                pos <= self.total_len,
                if pos >= offset {
                    out@ == flat(cm.take(i as int)).skip(offset as int)
                } else {
                    out@ == Seq::<u8>::empty()
                },
            decreases self.chunks@.len() - i,
        {
            let c = &self.chunks[i];
            let clen = c.len();
            proof {
                lemma_flat_take_succ(cm, i as int);
                lemma_flat_take_len_le(cm, i as int + 1);
                assert(flat(cm.take(i as int + 1)).len() == pos + clen);
            }
            let start: usize = if pos >= offset {
                0
            } else if pos + clen >= offset {
                offset - pos
            } else {
                clen
            };
            let ghost out_before = out@;
            let mut j: usize = start;
            while j < clen
                invariant
                    start <= j <= clen,
                    clen == c@.len(),
                    out@ == out_before + c@.subrange(start as int, j as int),
                decreases clen - j,
            {
                let b = c[j];
                out.push(b);
                proof {
                    assert(out@ =~= out_before + c@.subrange(start as int, j as int + 1));
                }
                j = j + 1;
            }
            proof {
                assert(out@ == out_before + c@.skip(start as int)) by {
                    assert(c@.subrange(start as int, clen as int) =~= c@.skip(start as int));
                }
                let fi = flat(cm.take(i as int));
                let fi1 = flat(cm.take(i as int + 1));
                assert(cm[i as int] == c@);
                if pos >= offset {
                    assert(fi1.skip(offset as int) =~= fi.skip(offset as int) + c@);
                    assert(c@.skip(0) =~= c@);
                } else if pos + clen >= offset {
                    assert(fi1.skip(offset as int) =~= c@.skip(offset - pos));
                } else {
                    assert(out@ =~= Seq::<u8>::empty());
                }
            }
            pos = pos + clen;
            i = i + 1;
        }
        proof {
            assert(cm.take(i as int) =~= cm);
            assert(pos >= offset);
        }
        (out, self.total_len, self.is_uploaded)
    }
}

} // verus!
