//! The store: an ordered mapping from id to record. It owns structural
//! mutation (create on upload start, delete) and answers lookups, full
//! listings and lexicographic prefix queries. Its view is a map from the
//! id's UTF-8 bytes to the record's model.

use vstd::map::*;
use vstd::prelude::*;
use vstd::string::StringSliceAdditionalSpecFns;

use crate::StoreError;
use crate::order::{
    KeyOrder, cmp_bytes, key_of, lemma_lex_irrefl, lemma_lex_trans, lex_lt, starts_with_bytes,
};
use crate::video::{VideoModel, VideoUpload};

verus! {

/// One listing row: an id and whether its upload has finished.
pub struct VideoResponse {
    pub is_uploaded: bool,
    pub id: String,
}

impl VideoResponse {
    /// The key this row describes.
    pub open spec fn key(&self) -> Seq<u8> {
        key_of(self.id@)
    }
}

/// The result of a listing: rows in ascending id order.
pub struct VideoListResponse {
    pub videos: Vec<VideoResponse>,
}

struct Entry {
    id: String,
    video: VideoUpload,
}

/// The store itself: entries kept sorted by the byte-wise order of their
/// ids, one entry per id.
pub struct Store {
    entries: Vec<Entry>,
}

impl View for Store {
    type V = Map<Seq<u8>, VideoModel>;

    closed spec fn view(&self) -> Map<Seq<u8>, VideoModel> {
        Map::new(
            |k: Seq<u8>| exists|i: int| 0 <= i < self.n() && self.key_at(i) == k,
            |k: Seq<u8>|
                self.model_at(choose|i: int| 0 <= i < self.n() && self.key_at(i) == k),
        )
    }
}

impl Store {
    pub closed spec fn n(&self) -> int {
        self.entries@.len() as int
    }

    pub closed spec fn key_at(&self, i: int) -> Seq<u8> {
        key_of(self.entries@[i].id@)
    }

    pub closed spec fn model_at(&self, i: int) -> VideoModel {
        self.entries@[i].video@
    }

    pub closed spec fn sorted(&self) -> bool {
        forall|i: int, j: int|
            0 <= i < j < self.n() ==> lex_lt(self.key_at(i), self.key_at(j))
    }

    /// Well-formed: entries strictly sorted by key (hence ids unique), and
    /// every record internally consistent.
    pub closed spec fn wf(&self) -> bool {
        &&& self.sorted()
        &&& forall|i: int| 0 <= i < self.n() ==> (#[trigger] self.entries@[i].video).wf()
    }

    proof fn lemma_unique(&self, i: int, j: int)
        requires
            self.sorted(),
            0 <= i < self.n(),
            0 <= j < self.n(),
            i != j,
        ensures
            self.key_at(i) != self.key_at(j),
    {
        if i < j {
            if self.key_at(i) == self.key_at(j) {
                lemma_lex_irrefl(self.key_at(i));
            }
        } else {
            if self.key_at(i) == self.key_at(j) {
                lemma_lex_irrefl(self.key_at(j));
            }
        }
    }

    proof fn lemma_view_at(&self, i: int)
        requires
            self.sorted(),
            0 <= i < self.n(),
        ensures
            self@.contains_key(self.key_at(i)),
            self@[self.key_at(i)] == self.model_at(i),
    {
        let k = self.key_at(i);
        assert(self@.contains_key(k));
        let j = choose|j: int| 0 <= j < self.n() && self.key_at(j) == k;
        if j != i {
            self.lemma_unique(i, j);
        }
    }

    /// An empty store.
    pub fn new() -> (s: Store)
        ensures
            s.wf(),
            s@ == Map::<Seq<u8>, VideoModel>::empty(),
    {
        let s = Store { entries: Vec::new() };
        proof {
            assert(s@ =~= Map::<Seq<u8>, VideoModel>::empty());
        }
        s
    }

    /// Finds the position where `key` stands or would be inserted.
    fn locate(&self, key: &[u8]) -> (r: (usize, bool))
        requires
            self.wf(),
        ensures
            r.0 <= self.n(),
            forall|k: int| 0 <= k < r.0 ==> lex_lt(self.key_at(k), key@),
            r.1 ==> r.0 < self.n() && self.key_at(r.0 as int) == key@,
            !r.1 && r.0 < self.n() ==> lex_lt(key@, self.key_at(r.0 as int)),
            !r.1 ==> forall|k: int| 0 <= k < self.n() ==> self.key_at(k) != key@,
    {
        let mut p: usize = 0;
        loop
            invariant
                self.wf(),
                p <= self.n(),
                forall|k: int| 0 <= k < p ==> lex_lt(self.key_at(k), key@),
            decreases self.n() - p,
        {
            if p == self.entries.len() {
                proof {
                    assert forall|k: int| 0 <= k < self.n() implies self.key_at(k) != key@ by {
                        if self.key_at(k) == key@ {
                            lemma_lex_irrefl(key@);
                        }
                    }
                }
                return (p, false);
            }
            let e = &self.entries[p];
            let ekey = e.id.as_str().as_bytes();
            assert(ekey@ == self.key_at(p as int));
            match cmp_bytes(ekey, key) {
                KeyOrder::Less => {
                    p = p + 1;
                }
                KeyOrder::Equal => {
                    return (p, true);
                }
                KeyOrder::Greater => {
                    proof {
                        assert forall|k: int| 0 <= k < self.n() implies self.key_at(k) != key@ by {
                            if k < p {
                                if self.key_at(k) == key@ {
                                    lemma_lex_irrefl(key@);
                                }
                            } else if k == p {
                                if self.key_at(k) == key@ {
                                    lemma_lex_irrefl(key@);
                                }
                            } else {
                                if self.key_at(k) == key@ {
                                    lemma_lex_trans(key@, self.key_at(p as int), self.key_at(k));
                                    lemma_lex_irrefl(key@);
                                }
                            }
                        }
                    }
                    return (p, false);
                }
            }
        }
    }

    /// Looks the id up; shared access, no mutation.
    pub fn lookup(&self, id: &str) -> (r: Option<&VideoUpload>)
        requires
            self.wf(),
        ensures
            match r {
                Some(v) => self@.contains_key(key_of(id@)) && v@ == self@[key_of(id@)]
                    && v.wf(),
                None => !self@.contains_key(key_of(id@)),
            },
    {
        let kb = id.as_bytes();
        assert(kb@ == key_of(id@));
        let (p, found) = self.locate(kb);
        if found {
            proof {
                self.lemma_view_at(p as int);
            }
            Some(&self.entries[p].video)
        } else {
            None
        }
    }

    /// Insertion at `p` of an entry strictly between its neighbours keeps
    /// the store well-formed and inserts the key into the view.
    proof fn lemma_insert_at(pre: Store, post: Store, p: int, e: Entry)
        requires
            pre.wf(),
            0 <= p <= pre.n(),
            post.entries@ == pre.entries@.insert(p, e),
            e.video.wf(),
            forall|i: int| 0 <= i < p ==> lex_lt(pre.key_at(i), key_of(e.id@)),
            forall|i: int| p <= i < pre.n() ==> lex_lt(key_of(e.id@), pre.key_at(i)),
        ensures
            post.wf(),
            post@ == pre@.insert(key_of(e.id@), e.video@),
    {
        let k = key_of(e.id@);
        pre.entries@.insert_ensures(p, e);
        assert(post.n() == pre.n() + 1);
        assert forall|j: int| 0 <= j < post.n() implies #[trigger] post.entries@[j] == (if j < p {
            pre.entries@[j]
        } else if j == p {
            e
        } else {
            pre.entries@[j - 1]
        }) by {
            if j > p {
                assert(pre.entries@.insert(p, e)[(j - 1) + 1] == pre.entries@[j - 1]);
            }
        }
        assert forall|j: int| 0 <= j < post.n() implies #[trigger] post.key_at(j) == (if j < p {
            pre.key_at(j)
        } else if j == p {
            k
        } else {
            pre.key_at(j - 1)
        }) && post.model_at(j) == (if j < p {
            pre.model_at(j)
        } else if j == p {
            e.video@
        } else {
            pre.model_at(j - 1)
        }) && post.entries@[j].video.wf() by {
            assert(post.entries@[j] == (if j < p {
                pre.entries@[j]
            } else if j == p {
                e
            } else {
                pre.entries@[j - 1]
            }));
        }
        assert forall|i: int, j: int| 0 <= i < j < post.n() implies lex_lt(
            post.key_at(i),
            post.key_at(j),
        ) by {
            if j < p {
                assert(lex_lt(pre.key_at(i), pre.key_at(j)));
            } else if j == p {
                assert(lex_lt(pre.key_at(i), k));
            } else if i < p {
                assert(lex_lt(pre.key_at(i), k));
                assert(lex_lt(k, pre.key_at(j - 1)));
                lemma_lex_trans(pre.key_at(i), k, pre.key_at(j - 1));
            } else if i == p {
                assert(lex_lt(k, pre.key_at(j - 1)));
            } else {
                assert(lex_lt(pre.key_at(i - 1), pre.key_at(j - 1)));
            }
        }
        assert(post.wf());
        let target = pre@.insert(k, e.video@);
        assert_maps_equal!(post@, target, k2 => {
            if k2 == k {
                post.lemma_view_at(p);
                assert(post.key_at(p) == k);
                assert(post.model_at(p) == e.video@);
            } else {
                if pre@.contains_key(k2) {
                    let i = choose|i: int| 0 <= i < pre.n() && pre.key_at(i) == k2;
                    pre.lemma_view_at(i);
                    let j = if i < p { i } else { i + 1 };
                    assert(post.key_at(j) == k2);
                    assert(post.model_at(j) == pre.model_at(i));
                    post.lemma_view_at(j);
                }
                if post@.contains_key(k2) {
                    let j = choose|j: int| 0 <= j < post.n() && post.key_at(j) == k2;
                    if j != p {
                        let i = if j < p { j } else { j - 1 };
                        assert(pre.key_at(i) == k2);
                        assert(pre@.contains_key(k2));
                    }
                }
            }
        });
    }

    /// Replacing the record at `p` in place keeps the store well-formed and
    /// overwrites the key's model in the view.
    proof fn lemma_update_at(pre: Store, post: Store, p: int, e: Entry)
        requires
            pre.wf(),
            0 <= p < pre.n(),
            post.entries@ == pre.entries@.update(p, e),
            key_of(e.id@) == pre.key_at(p),
            e.video.wf(),
        ensures
            post.wf(),
            post@ == pre@.insert(pre.key_at(p), e.video@),
    {
        let k = pre.key_at(p);
        assert(post.n() == pre.n());
        assert forall|j: int| 0 <= j < post.n() implies #[trigger] post.key_at(j) == pre.key_at(j)
            && post.model_at(j) == (if j == p {
            e.video@
        } else {
            pre.model_at(j)
        }) && post.entries@[j].video.wf() by {
            if j != p {
                assert(post.entries@[j] == pre.entries@[j]);
            } else {
                assert(post.entries@[j] == e);
            }
        }
        assert forall|i: int, j: int| 0 <= i < j < post.n() implies lex_lt(
            post.key_at(i),
            post.key_at(j),
        ) by {
            assert(post.key_at(i) == pre.key_at(i));
            assert(post.key_at(j) == pre.key_at(j));
        }
        assert(post.wf());
        let target = pre@.insert(k, e.video@);
        assert_maps_equal!(post@, target, k2 => {
            if k2 == k {
                post.lemma_view_at(p);
                assert(post.key_at(p) == k);
                assert(post.model_at(p) == e.video@);
            } else {
                if pre@.contains_key(k2) {
                    let i = choose|i: int| 0 <= i < pre.n() && pre.key_at(i) == k2;
                    pre.lemma_view_at(i);
                    assert(i != p);
                    assert(post.key_at(i) == k2);
                    assert(post.model_at(i) == pre.model_at(i));
                    post.lemma_view_at(i);
                }
                if post@.contains_key(k2) {
                    let j = choose|j: int| 0 <= j < post.n() && post.key_at(j) == k2;
                    assert(pre.key_at(j) == k2);
                    assert(pre@.contains_key(k2));
                }
            }
        });
    }

    /// Removing the entry at `p` keeps the store well-formed and removes
    /// exactly its key from the view.
    proof fn lemma_remove_at(pre: Store, post: Store, p: int)
        requires
            pre.wf(),
            0 <= p < pre.n(),
            post.entries@ == pre.entries@.remove(p),
        ensures
            post.wf(),
            post@ == pre@.remove(pre.key_at(p)),
    {
        let k = pre.key_at(p);
        pre.entries@.remove_ensures(p);
        assert(post.n() == pre.n() - 1);
        assert forall|j: int| 0 <= j < post.n() implies #[trigger] post.key_at(j) == (if j < p {
            pre.key_at(j)
        } else {
            pre.key_at(j + 1)
        }) && post.model_at(j) == (if j < p {
            pre.model_at(j)
        } else {
            pre.model_at(j + 1)
        }) && post.entries@[j].video.wf() by {
            assert(post.entries@[j] == (if j < p {
                pre.entries@[j]
            } else {
                pre.entries@[j + 1]
            }));
        }
        assert forall|i: int, j: int| 0 <= i < j < post.n() implies lex_lt(
            post.key_at(i),
            post.key_at(j),
        ) by {
            let i0 = if i < p {
                i
            } else {
                i + 1
            };
            let j0 = if j < p {
                j
            } else {
                j + 1
            };
            assert(lex_lt(pre.key_at(i0), pre.key_at(j0)));
        }
        assert(post.wf());
        let target = pre@.remove(k);
        assert_maps_equal!(post@, target, k2 => {
            if target.contains_key(k2) {
                assert(pre@.contains_key(k2) && k2 != k);
                let i = choose|i: int| 0 <= i < pre.n() && pre.key_at(i) == k2;
                pre.lemma_view_at(i);
                assert(i != p);
                let j = if i < p { i } else { i - 1 };
                assert(post.key_at(j) == k2);
                assert(post.model_at(j) == pre.model_at(i));
                post.lemma_view_at(j);
            }
            if post@.contains_key(k2) {
                let j = choose|j: int| 0 <= j < post.n() && post.key_at(j) == k2;
                let i = if j < p { j } else { j + 1 };
                assert(pre.key_at(i) == k2);
                assert(pre@.contains_key(k2));
                if k2 == k {
                    pre.lemma_unique(i, p);
                }
            }
        });
    }

    /// A successful `begin_upload` leaves an incomplete record under the
    /// id, which is exactly the state in which `begin_upload`'s contract
    /// forces a second call for the same id, with no completion or delete
    /// in between, to return `Conflict`.
    pub proof fn lemma_second_begin_upload_conflicts(before: Map<Seq<u8>, VideoModel>, k: Seq<u8>)
        ensures
            before.insert(k, VideoModel { bytes: Seq::empty(), complete: false }).contains_key(k),
            !before.insert(k, VideoModel { bytes: Seq::empty(), complete: false })[k].complete,
    {
    }

    /// After a successful `delete` the store no longer holds the key, so
    /// `lookup`'s contract forces a subsequent lookup of the same id to
    /// report it absent.
    pub proof fn lemma_deleted_id_absent(before: Map<Seq<u8>, VideoModel>, k: Seq<u8>)
        ensures
            !before.remove(k).contains_key(k),
    {
    }

    /// Starts an upload: fails with `Conflict` while an upload of the same
    /// id is in progress; otherwise installs a fresh, empty, incomplete
    /// record (replacing a completed one).
    pub fn begin_upload(&mut self, id: &str) -> (r: Result<(), StoreError>)
        requires
            old(self).wf(),
        ensures
            final(self).wf(),
            match r {
                Err(e) => e == StoreError::Conflict && old(self)@.contains_key(key_of(id@))
                    && !old(self)@[key_of(id@)].complete && final(self)@ == old(self)@,
                Ok(()) => (!old(self)@.contains_key(key_of(id@)) || old(self)@[key_of(
                    id@,
                )].complete) && final(self)@ == old(self)@.insert(
                    key_of(id@),
                    VideoModel { bytes: Seq::empty(), complete: false },
                ),
            },
    {
        let kb = id.as_bytes();
        assert(kb@ == key_of(id@));
        let (p, found) = self.locate(kb);
        if found {
            proof {
                self.lemma_view_at(p as int);
            }
            if !self.entries[p].video.is_complete() {
                return Err(StoreError::Conflict);
            }
            let ghost pre = *self;
            let e = Entry { id: id.to_owned(), video: VideoUpload::new() };
            let ghost ge = e;
            self.entries[p] = e;
            proof {
                assert(self.entries@ == pre.entries@.update(p as int, ge));
                assert(key_of(ge.id@) == pre.key_at(p as int));
                Store::lemma_update_at(pre, *self, p as int, ge);
                assert(ge.video@ == VideoModel { bytes: Seq::empty(), complete: false });
            }
            Ok(())
        } else {
            let ghost pre = *self;
            let e = Entry { id: id.to_owned(), video: VideoUpload::new() };
            let ghost ge = e;
            self.entries.insert(p, e);
            proof {
                assert(self.entries@ == pre.entries@.insert(p as int, ge));
                assert(key_of(ge.id@) == key_of(id@));
                assert forall|i: int| p <= i < pre.n() implies lex_lt(
                    key_of(ge.id@),
                    pre.key_at(i),
                ) by {
                    if i > p {
                        lemma_lex_trans(key_of(id@), pre.key_at(p as int), pre.key_at(i));
                    }
                }
                Store::lemma_insert_at(pre, *self, p as int, ge);
                assert(ge.video@ == VideoModel { bytes: Seq::empty(), complete: false });
            }
            Ok(())
        }
    }

    /// Appends a chunk to the id's record: `NotFound` if absent, `Conflict`
    /// if the record is already complete.
    pub fn append_chunk(&mut self, id: &str, chunk: Vec<u8>) -> (r: Result<(), StoreError>)
        requires
            old(self).wf(),
            old(self)@.contains_key(key_of(id@)) ==> old(self)@[key_of(id@)].bytes.len()
                + chunk@.len() <= usize::MAX,
        ensures
            final(self).wf(),
            match r {
                Ok(()) => old(self)@.contains_key(key_of(id@)) && !old(self)@[key_of(
                    id@,
                )].complete && final(self)@ == old(self)@.insert(
                    key_of(id@),
                    VideoModel {
                        bytes: old(self)@[key_of(id@)].bytes + chunk@,
                        complete: false,
                    },
                ),
                Err(e) => final(self)@ == old(self)@ && (if e == StoreError::NotFound {
                    !old(self)@.contains_key(key_of(id@))
                } else {
                    old(self)@.contains_key(key_of(id@)) && old(self)@[key_of(id@)].complete
                }),
            },
    {
        let kb = id.as_bytes();
        assert(kb@ == key_of(id@));
        let (p, found) = self.locate(kb);
        if !found {
            return Err(StoreError::NotFound);
        }
        proof {
            self.lemma_view_at(p as int);
        }
        if self.entries[p].video.is_complete() {
            return Err(StoreError::Conflict);
        }
        let ghost pre = *self;
        self.entries[p].video.append(chunk);
        proof {
            assert(self.entries@ == pre.entries@.update(p as int, self.entries@[p as int]));
            Store::lemma_update_at(pre, *self, p as int, self.entries@[p as int]);
        }
        Ok(())
    }

    /// Marks the id's record complete: `NotFound` if absent, idempotent
    /// otherwise.
    pub fn mark_complete(&mut self, id: &str) -> (r: Result<(), StoreError>)
        requires
            old(self).wf(),
        ensures
            final(self).wf(),
            match r {
                Ok(()) => old(self)@.contains_key(key_of(id@)) && final(self)@ == old(
                    self,
                )@.insert(
                    key_of(id@),
                    VideoModel { bytes: old(self)@[key_of(id@)].bytes, complete: true },
                ),
                Err(e) => e == StoreError::NotFound && !old(self)@.contains_key(key_of(id@))
                    && final(self)@ == old(self)@,
            },
    {
        let kb = id.as_bytes();
        assert(kb@ == key_of(id@));
        let (p, found) = self.locate(kb);
        if !found {
            return Err(StoreError::NotFound);
        }
        proof {
            self.lemma_view_at(p as int);
        }
        let ghost pre = *self;
        self.entries[p].video.mark_complete();
        proof {
            assert(self.entries@ == pre.entries@.update(p as int, self.entries@[p as int]));
            Store::lemma_update_at(pre, *self, p as int, self.entries@[p as int]);
        }
        Ok(())
    }

    /// One snapshot read of the id's record from byte offset `offset`.
    pub fn read_from(&self, id: &str, offset: usize) -> (r: Option<(Vec<u8>, usize, bool)>)
        requires
            self.wf(),
            self@.contains_key(key_of(id@)) ==> offset <= self@[key_of(id@)].bytes.len(),
        ensures
            match r {
                None => !self@.contains_key(key_of(id@)),
                Some(t) => self@.contains_key(key_of(id@)) && t.0@ == self@[key_of(
                    id@,
                )].bytes.skip(offset as int) && t.1 == self@[key_of(id@)].bytes.len() && t.2
                    == self@[key_of(id@)].complete,
            },
    {
        match self.lookup(id) {
            None => None,
            Some(v) => Some(v.read_from(offset)),
        }
    }

    /// Deletes the id's record: `NotFound` if absent, `Conflict` while its
    /// upload is still in progress.
    pub fn delete(&mut self, id: &str) -> (r: Result<(), StoreError>)
        requires
            old(self).wf(),
        ensures
            final(self).wf(),
            match r {
                Ok(()) => old(self)@.contains_key(key_of(id@)) && old(self)@[key_of(
                    id@,
                )].complete && final(self)@ == old(self)@.remove(key_of(id@)),
                Err(e) => final(self)@ == old(self)@ && (if e == StoreError::NotFound {
                    !old(self)@.contains_key(key_of(id@))
                } else {
                    old(self)@.contains_key(key_of(id@)) && !old(self)@[key_of(id@)].complete
                }),
            },
    {
        let kb = id.as_bytes();
        assert(kb@ == key_of(id@));
        let (p, found) = self.locate(kb);
        if !found {
            return Err(StoreError::NotFound);
        }
        proof {
            self.lemma_view_at(p as int);
        }
        if !self.entries[p].video.is_complete() {
            return Err(StoreError::Conflict);
        }
        let ghost pre = *self;
        self.entries.remove(p);
        proof {
            Store::lemma_remove_at(pre, *self, p as int);
        }
        Ok(())
    }

    /// Lists every id with its completion flag, in ascending id order.
    pub fn list(&self) -> (r: VideoListResponse)
        requires
            self.wf(),
        ensures
            forall|i: int|
                0 <= i < r.videos@.len() ==> self@.contains_key(#[trigger] r.videos@[i].key())
                    && r.videos@[i].is_uploaded == self@[r.videos@[i].key()].complete,
            forall|i: int, j: int|
                0 <= i < j < r.videos@.len() ==> lex_lt(r.videos@[i].key(), r.videos@[j].key()),
            forall|k: Seq<u8>|
                self@.contains_key(k) ==> exists|i: int|
                    0 <= i < r.videos@.len() && #[trigger] r.videos@[i].key() == k,
    {
        let mut videos: Vec<VideoResponse> = Vec::new();
        let mut i: usize = 0;
        while i < self.entries.len()
            invariant
                self.wf(),
                i <= self.n(),
                videos@.len() == i,
                forall|k: int|
                    0 <= k < i ==> (#[trigger] videos@[k]).id@ == self.entries@[k].id@
                        && videos@[k].is_uploaded == self.model_at(k).complete,
            decreases self.n() - i,
        {
            let e = &self.entries[i];
            let row = VideoResponse { is_uploaded: e.video.is_complete(), id: e.id.clone() };
            videos.push(row);
            i = i + 1;
        }
        let r = VideoListResponse { videos };
        proof {
            assert forall|j: int| 0 <= j < r.videos@.len() implies self@.contains_key(
                #[trigger] r.videos@[j].key(),
            ) && r.videos@[j].is_uploaded == self@[r.videos@[j].key()].complete by {
                assert(r.videos@[j].key() == self.key_at(j));
                self.lemma_view_at(j);
            }
            assert forall|a: int, b: int| 0 <= a < b < r.videos@.len() implies lex_lt(
                r.videos@[a].key(),
                r.videos@[b].key(),
            ) by {
                assert(r.videos@[a].key() == self.key_at(a));
                assert(r.videos@[b].key() == self.key_at(b));
                assert(lex_lt(self.key_at(a), self.key_at(b)));
            }
            assert forall|k: Seq<u8>| self@.contains_key(k) implies exists|j: int|
                0 <= j < r.videos@.len() && #[trigger] r.videos@[j].key() == k by {
                assert(exists|j: int| 0 <= j < self.n() && self.key_at(j) == k);
                let j = choose|j: int| 0 <= j < self.n() && self.key_at(j) == k;
                assert(r.videos@[j].key() == k);
            }
        }
        r
    }

    /// Lists the ids that start with `prefix`, with their completion flags,
    /// in ascending id order.
    pub fn list_prefix(&self, prefix: &str) -> (r: VideoListResponse)
        requires
            self.wf(),
        ensures
            forall|i: int|
                0 <= i < r.videos@.len() ==> self@.contains_key(#[trigger] r.videos@[i].key())
                    && r.videos@[i].is_uploaded == self@[r.videos@[i].key()].complete && key_of(
                    prefix@,
                ).is_prefix_of(r.videos@[i].key()),
            forall|i: int, j: int|
                0 <= i < j < r.videos@.len() ==> lex_lt(r.videos@[i].key(), r.videos@[j].key()),
            forall|k: Seq<u8>|
                self@.contains_key(k) && key_of(prefix@).is_prefix_of(k) ==> exists|i: int|
                    0 <= i < r.videos@.len() && #[trigger] r.videos@[i].key() == k,
    {
        let pb = prefix.as_bytes();
        assert(pb@ == key_of(prefix@));
        let mut videos: Vec<VideoResponse> = Vec::new();
        let ghost mut idxs: Seq<int> = Seq::empty();
        let mut i: usize = 0;
        while i < self.entries.len()
            invariant
                self.wf(),
                pb@ == key_of(prefix@),
                i <= self.n(),
                videos@.len() == idxs.len(),
                forall|a: int| 0 <= a < idxs.len() ==> 0 <= #[trigger] idxs[a] < i,
                forall|a: int, b: int| 0 <= a < b < idxs.len() ==> idxs[a] < idxs[b],
                forall|a: int|
                    0 <= a < idxs.len() ==> (#[trigger] videos@[a]).id@
                        == self.entries@[idxs[a]].id@ && videos@[a].is_uploaded == self.model_at(
                        idxs[a],
                    ).complete,
                forall|k: int|
                    0 <= k < i && key_of(prefix@).is_prefix_of(#[trigger] self.key_at(k))
                        ==> exists|a: int| 0 <= a < idxs.len() && idxs[a] == k,
                forall|a: int|
                    0 <= a < idxs.len() ==> key_of(prefix@).is_prefix_of(
                        #[trigger] self.key_at(idxs[a]),
                    ),
            decreases self.n() - i,
        {
            let e = &self.entries[i];
            let ekey = e.id.as_str().as_bytes();
            assert(ekey@ == self.key_at(i as int));
            let ghost old_idxs = idxs;
            if starts_with_bytes(ekey, pb) {
                let row = VideoResponse { is_uploaded: e.video.is_complete(), id: e.id.clone() };
                videos.push(row);
                proof {
                    idxs = idxs.push(i as int);
                    assert(idxs[idxs.len() - 1] == i as int);
                    assert forall|a: int| 0 <= a < old_idxs.len() implies idxs[a] == old_idxs[a]
                        by {}
                }
            }
            proof {
                assert forall|k: int|
                    0 <= k < i + 1 && key_of(prefix@).is_prefix_of(#[trigger] self.key_at(k))
                    implies exists|a: int| 0 <= a < idxs.len() && idxs[a] == k by {
                    if k < i {
                        let a = choose|a: int| 0 <= a < old_idxs.len() && old_idxs[a] == k;
                        assert(idxs[a] == k);
                    } else {
                        assert(idxs[idxs.len() - 1] == k);
                    }
                }
            }
            i = i + 1;
        }
        let r = VideoListResponse { videos };
        proof {
            assert forall|j: int| 0 <= j < r.videos@.len() implies self@.contains_key(
                #[trigger] r.videos@[j].key(),
            ) && r.videos@[j].is_uploaded == self@[r.videos@[j].key()].complete && key_of(
                prefix@,
            ).is_prefix_of(r.videos@[j].key()) by {
                assert(r.videos@[j].key() == self.key_at(idxs[j]));
                self.lemma_view_at(idxs[j]);
            }
            assert forall|a: int, b: int| 0 <= a < b < r.videos@.len() implies lex_lt(
                r.videos@[a].key(),
                r.videos@[b].key(),
            ) by {
                assert(r.videos@[a].key() == self.key_at(idxs[a]));
                assert(r.videos@[b].key() == self.key_at(idxs[b]));
            }
            assert forall|k: Seq<u8>|
                self@.contains_key(k) && key_of(prefix@).is_prefix_of(k) implies exists|j: int|
                0 <= j < r.videos@.len() && #[trigger] r.videos@[j].key() == k by {
                let j = choose|j: int| 0 <= j < self.n() && self.key_at(j) == k;
                let a = choose|a: int| 0 <= a < idxs.len() && idxs[a] == j;
                assert(r.videos@[a].key() == k);
            }
        }
        r
    }
}

} // verus!
