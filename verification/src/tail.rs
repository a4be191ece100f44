//! The tail reader: drains one record's bytes from offset zero, observing
//! newly appended data as it arrives, and terminates exactly on an empty
//! read taken while the record is complete.

use vstd::prelude::*;

use crate::video::{VideoModel, VideoUpload};

verus! {

/// One reader's state: the byte offset it has reached, whether it has
/// observed the end of the stream, and (as a ghost) every byte it has
/// emitted so far, in order.
pub struct TailReader {
    offset: usize,
    done: bool,
    emitted: Ghost<Seq<u8>>,
}

impl TailReader {
    pub closed spec fn offset(&self) -> int {
        self.offset as int
    }

    pub closed spec fn done(&self) -> bool {
        self.done
    }

    pub closed spec fn emitted(&self) -> Seq<u8> {
        self.emitted@
    }

    /// The reader agrees with a record's model: what it has emitted is
    /// exactly the record's first `offset` bytes.
    pub open spec fn in_sync(&self, m: VideoModel) -> bool {
        self.offset() <= m.bytes.len() && self.emitted() == m.bytes.take(self.offset())
    }

    /// A fresh reader, at offset zero, in sync with every record.
    pub fn new() -> (r: TailReader)
        ensures
            r.offset() == 0,
            !r.done(),
            r.emitted() == Seq::<u8>::empty(),
            forall|m: VideoModel| r.in_sync(m),
    {
        let r = TailReader { offset: 0, done: false, emitted: Ghost(Seq::empty()) };
        proof {
            assert forall|m: VideoModel| r.in_sync(m) by {
                assert(m.bytes.take(0) =~= Seq::<u8>::empty());
            }
        }
        r
    }

    /// The byte offset the reader has reached.
    pub fn position(&self) -> (r: usize)
        ensures
            r == self.offset(),
    {
        self.offset
    }

    /// Whether the reader has observed the end of the stream.
    pub fn is_done(&self) -> (r: bool)
        ensures
            r == self.done(),
    {
        self.done
    }

    /// One poll: takes a snapshot read of the record from the reader's
    /// offset, emits whatever is new, and stops exactly when the snapshot
    /// was empty with the record complete.
    pub fn step(&mut self, v: &VideoUpload) -> (out: Vec<u8>)
        requires
            v.wf(),
            !old(self).done(),
            old(self).offset() <= v@.bytes.len(),
        ensures
            out@ == v@.bytes.skip(old(self).offset()),
            final(self).offset() == v@.bytes.len(),
            final(self).emitted() == old(self).emitted() + out@,
            final(self).done() == (v@.complete && out@.len() == 0),
            old(self).in_sync(v@) ==> final(self).in_sync(v@) && (final(self).done()
                ==> final(self).emitted() == v@.bytes),
    {
        let (data, new_offset, complete) = v.read_from(self.offset);
        self.emitted = Ghost(self.emitted@ + data@);
        self.offset = new_offset;
        if complete && data.len() == 0 {
            self.done = true;
        }
        proof {
            if old(self).in_sync(v@) {
                assert(v@.bytes.take(old(self).offset()) + v@.bytes.skip(old(self).offset())
                    =~= v@.bytes);
                assert(v@.bytes.take(v@.bytes.len() as int) =~= v@.bytes);
            }
        }
        data
    }

    /// Reads a completed record in full: the output is exactly the stored
    /// content, and the loop provably terminates.
    pub fn drain(v: &VideoUpload) -> (out: Vec<u8>)
        requires
            v.wf(),
            v@.complete,
        ensures
            out@ == v@.bytes,
    {
        let mut reader = TailReader::new();
        let mut out: Vec<u8> = Vec::new();
        while !reader.is_done()
            invariant
                v.wf(),
                v@.complete,
                reader.in_sync(v@),
                out@ == reader.emitted(),
                reader.done() ==> out@ == v@.bytes,
            decreases v@.bytes.len() - reader.offset() + (if reader.done() {
                0int
            } else {
                1int
            }),
        {
            let mut chunk = reader.step(v);
            out.append(&mut chunk);
        }
        out
    }
}

/// Appending to a record never invalidates a reader in sync with it: the
/// bytes the reader has already observed stay in place, so it misses
/// nothing, duplicates nothing and sees no reordering.
pub proof fn lemma_append_preserves_in_sync(
    r: TailReader,
    before: VideoModel,
    after: VideoModel,
    chunk: Seq<u8>,
)
    requires
        r.in_sync(before),
        after.bytes == before.bytes + chunk,
    ensures
        r.in_sync(after),
{
    assert(after.bytes.take(r.offset()) =~= before.bytes.take(r.offset()));
}

/// What a reader in sync has emitted is a prefix of the record's bytes:
/// its output is always the stored content up to its offset, nothing else.
pub proof fn lemma_in_sync_emitted_prefix(r: TailReader, m: VideoModel)
    requires
        r.in_sync(m),
    ensures
        r.emitted().is_prefix_of(m.bytes),
        r.emitted() == m.bytes.take(r.offset()),
{
    assert(m.bytes.take(r.offset()) =~= m.bytes.subrange(0, m.bytes.take(r.offset()).len() as int));
}

/// A reader in sync that has reached the record's end has emitted exactly
/// the full stored content.
pub proof fn lemma_reader_at_end_emitted_all(r: TailReader, m: VideoModel)
    requires
        r.in_sync(m),
        r.offset() == m.bytes.len(),
    ensures
        r.emitted() == m.bytes,
{
    assert(m.bytes.take(m.bytes.len() as int) =~= m.bytes);
}

} // verus!
