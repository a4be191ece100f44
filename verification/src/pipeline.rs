//! The ingest pipeline: given a target id and an inbound ordered sequence
//! of chunks, start the upload, append every chunk in order, then mark the
//! record complete. On a conflict nothing is stored.

use vstd::prelude::*;

use crate::StoreError;
use crate::order::key_of;
use crate::store::Store;
use crate::video::{VideoModel, flat, lemma_flat_take_len_le, lemma_flat_take_succ, views_of};

verus! {

/// Ingests a whole upload: fails with `Conflict`, storing nothing, while
/// an upload of the same id is in progress; otherwise stores exactly the
/// concatenation of the chunks, in order, and marks the record complete.
pub fn ingest(store: &mut Store, id: &str, chunks: Vec<Vec<u8>>) -> (r: Result<(), StoreError>)
    requires
        old(store).wf(),
        flat(views_of(chunks@)).len() <= usize::MAX,
    ensures
        final(store).wf(),
        match r {
            Err(e) => e == StoreError::Conflict && old(store)@.contains_key(key_of(id@)) && !old(
                store,
            )@[key_of(id@)].complete && final(store)@ == old(store)@,
            Ok(()) => (!old(store)@.contains_key(key_of(id@)) || old(store)@[key_of(
                id@,
            )].complete) && final(store)@ == old(store)@.insert(
                key_of(id@),
                VideoModel { bytes: flat(views_of(chunks@)), complete: true },
            ),
        },
{
    let ghost base = old(store)@;
    let ghost all = views_of(chunks@);
    let ghost k = key_of(id@);
    match store.begin_upload(id) {
        Err(e) => {
            return Err(e);
        },
        Ok(()) => {},
    }
    let mut rest = chunks;
    proof {
        assert(views_of(rest@) =~= all.skip(0));
        assert(all.take(0) =~= Seq::<Seq<u8>>::empty());
    }
    while rest.len() > 0
        invariant
            store.wf(),
            k == key_of(id@),
            all == views_of(chunks@),
            base == old(store)@,
            rest@.len() <= all.len(),
            views_of(rest@) == all.skip(all.len() - rest@.len()),
            store@ == base.insert(
                k,
                VideoModel {
                    bytes: flat(all.take(all.len() - rest@.len())),
                    complete: false,
                },
            ),
            flat(all).len() <= usize::MAX,
        decreases rest@.len(),
    {
        let ghost j = all.len() - rest@.len();
        let ghost pre_rest = rest@;
        let c = rest.remove(0);
        proof {
            assert(c@ == views_of(pre_rest)[0]);
            assert(views_of(pre_rest)[0] == all.skip(j)[0]);
            assert(c@ == all[j]);
            pre_rest.remove_ensures(0);
            assert forall|x: int| 0 <= x < rest@.len() implies #[trigger] views_of(rest@)[x]
                == all.skip(j + 1)[x] by {
                assert(rest@[x] == pre_rest[x + 1]);
                assert(views_of(pre_rest)[x + 1] == pre_rest[x + 1]@);
                assert(all.skip(j)[x + 1] == all[j + 1 + x]);
            }
            assert(views_of(rest@) =~= all.skip(j + 1));
            lemma_flat_take_succ(all, j);
            lemma_flat_take_len_le(all, j + 1);
            assert(flat(all.take(j + 1)).len() == flat(all.take(j)).len() + all[j].len());
            assert(store@[k].bytes == flat(all.take(j)));
            assert(store@[k].bytes.len() + c@.len() == flat(all.take(j + 1)).len());
        }
        let ghost pre_store = store@;
        let res = store.append_chunk(id, c);
        match res {
            Ok(()) => {},
            Err(e) => {
                proof {
                    assert(pre_store.contains_key(k));
                    assert(!pre_store[k].complete);
                    assert(false);
                }
                return Err(e);
            },
        }
        proof {
            assert(store@ =~= base.insert(
                k,
                VideoModel { bytes: flat(all.take(j + 1)), complete: false },
            ));
        }
    }
    proof {
        assert(all.take(all.len() as int) =~= all);
    }
    let ghost pre_store = store@;
    match store.mark_complete(id) {
        Ok(()) => {},
        Err(e) => {
            proof {
                assert(pre_store.contains_key(k));
                assert(false);
            }
            return Err(e);
        },
    }
    proof {
        assert(store@ =~= base.insert(k, VideoModel { bytes: flat(all), complete: true }));
    }
    Ok(())
}

} // verus!
