use video_store::StoreError;
use video_store::store::Store;
use video_store::tail::TailReader;
use video_store::video::VideoUpload;

fn ids_of(list: &video_store::store::VideoListResponse) -> Vec<String> {
    list.videos.iter().map(|v| v.id.clone()).collect()
}

#[test]
fn begin_upload_twice_conflicts() {
    let mut store = Store::new();
    assert!(store.begin_upload("v1").is_ok());
    assert_eq!(store.begin_upload("v1"), Err(StoreError::Conflict));
    // Still in conflict after data arrives, as long as it is incomplete.
    store.append_chunk("v1", vec![1, 2, 3]).unwrap();
    assert_eq!(store.begin_upload("v1"), Err(StoreError::Conflict));
    // After completion a new upload of the same id may start.
    store.mark_complete("v1").unwrap();
    assert!(store.begin_upload("v1").is_ok());
}

#[test]
fn tail_reader_sees_all_appends_in_order() {
    let mut store = Store::new();
    store.begin_upload("v1").unwrap();
    store.append_chunk("v1", b"AB".to_vec()).unwrap();

    let mut reader = TailReader::new();
    let mut output: Vec<u8> = Vec::new();

    // Reader polls while the upload is still in progress.
    let part = reader.step(store.lookup("v1").unwrap());
    assert_eq!(part, b"AB".to_vec());
    output.extend(part);
    assert!(!reader.is_done());

    store.append_chunk("v1", b"CD".to_vec()).unwrap();
    store.mark_complete("v1").unwrap();

    while !reader.is_done() {
        let part = reader.step(store.lookup("v1").unwrap());
        output.extend(part);
    }
    assert_eq!(output, b"ABCD".to_vec());
}

#[test]
fn tail_reader_slow_poll_sees_everything_at_once() {
    // The reader only starts polling after every append and the completion:
    // it still receives the full content, exactly once, and terminates.
    let mut store = Store::new();
    store.begin_upload("v1").unwrap();
    store.append_chunk("v1", b"AB".to_vec()).unwrap();
    store.append_chunk("v1", b"CD".to_vec()).unwrap();
    store.mark_complete("v1").unwrap();

    let mut reader = TailReader::new();
    let mut output: Vec<u8> = Vec::new();
    let mut polls = 0;
    while !reader.is_done() {
        output.extend(reader.step(store.lookup("v1").unwrap()));
        polls += 1;
        assert!(polls <= 2, "reader failed to terminate");
    }
    assert_eq!(output, b"ABCD".to_vec());
}

#[test]
fn drain_returns_completed_content_and_terminates() {
    let mut v = VideoUpload::new();
    v.append(b"hel".to_vec());
    v.append(b"lo".to_vec());
    v.mark_complete();
    assert_eq!(TailReader::drain(&v), b"hello".to_vec());

    let mut empty = VideoUpload::new();
    empty.mark_complete();
    assert_eq!(TailReader::drain(&empty), Vec::<u8>::new());
}

#[test]
fn list_prefix_returns_matching_ids_in_order() {
    let mut store = Store::new();
    for id in ["b", "ac", "ab"] {
        store.begin_upload(id).unwrap();
        store.mark_complete(id).unwrap();
    }
    let filtered = store.list_prefix("a");
    assert_eq!(ids_of(&filtered), vec!["ab".to_string(), "ac".to_string()]);

    let empty_store = Store::new();
    assert!(empty_store.list_prefix("a").videos.is_empty());
}

#[test]
fn list_is_sorted_and_reports_completion() {
    let mut store = Store::new();
    store.begin_upload("zeta").unwrap();
    store.mark_complete("zeta").unwrap();
    store.begin_upload("alpha").unwrap();
    let all = store.list();
    assert_eq!(ids_of(&all), vec!["alpha".to_string(), "zeta".to_string()]);
    assert!(!all.videos[0].is_uploaded);
    assert!(all.videos[1].is_uploaded);
}

#[test]
fn delete_lifecycle_errors() {
    let mut store = Store::new();
    assert_eq!(store.delete("nope"), Err(StoreError::NotFound));

    store.begin_upload("v1").unwrap();
    assert_eq!(store.delete("v1"), Err(StoreError::Conflict));

    store.mark_complete("v1").unwrap();
    assert_eq!(store.delete("v1"), Ok(()));
    assert!(store.lookup("v1").is_none());
    assert_eq!(store.delete("v1"), Err(StoreError::NotFound));
}

#[test]
fn reupload_after_completion_replaces_content() {
    let mut store = Store::new();
    video_store::pipeline::ingest(&mut store, "v2", vec![b"old ".to_vec(), b"data".to_vec()])
        .unwrap();
    {
        let v = store.lookup("v2").unwrap();
        assert!(v.is_complete());
        assert_eq!(TailReader::drain(v), b"old data".to_vec());
    }
    video_store::pipeline::ingest(&mut store, "v2", vec![b"new".to_vec()]).unwrap();
    let v = store.lookup("v2").unwrap();
    assert_eq!(TailReader::drain(v), b"new".to_vec());
}

#[test]
fn ingest_conflicts_while_upload_in_progress() {
    let mut store = Store::new();
    store.begin_upload("v1").unwrap();
    store.append_chunk("v1", b"X".to_vec()).unwrap();
    let r = video_store::pipeline::ingest(&mut store, "v1", vec![b"Y".to_vec()]);
    assert_eq!(r, Err(StoreError::Conflict));
    // Nothing of the conflicting upload was stored.
    let (data, len, complete) = store.read_from("v1", 0).unwrap();
    assert_eq!(data, b"X".to_vec());
    assert_eq!(len, 1);
    assert!(!complete);
}

#[test]
fn read_from_is_byte_addressed() {
    let mut v = VideoUpload::new();
    v.append(b"abc".to_vec());
    v.append(b"defg".to_vec());
    assert_eq!(v.len(), 7);

    let (data, off, complete) = v.read_from(0);
    assert_eq!(data, b"abcdefg".to_vec());
    assert_eq!(off, 7);
    assert!(!complete);

    // An offset in the middle of a chunk is honoured.
    let (data, off, _) = v.read_from(2);
    assert_eq!(data, b"cdefg".to_vec());
    assert_eq!(off, 7);

    let (data, _, _) = v.read_from(7);
    assert!(data.is_empty());

    v.mark_complete();
    let (_, _, complete) = v.read_from(0);
    assert!(complete);
    // A second mark_complete is a no-op.
    v.mark_complete();
    assert!(v.is_complete());
    assert_eq!(v.len(), 7);
}

#[test]
fn read_from_store_absent_id() {
    let store = Store::new();
    assert!(store.read_from("missing", 0).is_none());
}

#[test]
fn append_chunk_errors() {
    let mut store = Store::new();
    assert_eq!(store.append_chunk("v1", vec![1]), Err(StoreError::NotFound));
    store.begin_upload("v1").unwrap();
    store.mark_complete("v1").unwrap();
    assert_eq!(store.append_chunk("v1", vec![1]), Err(StoreError::Conflict));
}

#[test]
fn mark_complete_absent_id() {
    let mut store = Store::new();
    assert_eq!(store.mark_complete("v1"), Err(StoreError::NotFound));
}

#[test]
fn empty_upload_completes_with_no_bytes() {
    let mut store = Store::new();
    video_store::pipeline::ingest(&mut store, "v1", Vec::new()).unwrap();
    let (data, len, complete) = store.read_from("v1", 0).unwrap();
    assert!(data.is_empty());
    assert_eq!(len, 0);
    assert!(complete);
}

#[test]
fn list_prefix_with_empty_prefix_lists_all() {
    let mut store = Store::new();
    for id in ["b", "a"] {
        store.begin_upload(id).unwrap();
    }
    let all = store.list_prefix("");
    assert_eq!(ids_of(&all), vec!["a".to_string(), "b".to_string()]);
    // A prefix longer than every id matches nothing.
    assert!(store.list_prefix("aa").videos.is_empty());
}
