use book_store::naming::{attachment_path, sanitize_file_name, stored_path};
use book_store::store::TransferStore;
use book_store::transfer::{assemble_chunks, slice_range, RangeRead, TransferError, UploadStatus};
use std::collections::HashMap;

fn bytes(len: usize, seed: u8) -> Vec<u8> {
    (0..len).map(|i| (i as u8).wrapping_mul(7).wrapping_add(seed)).collect()
}

fn assembled(store: &TransferStore, name: &str) -> Vec<u8> {
    store.stored_file(name).expect("file is stored").clone()
}

#[test]
fn end_to_end_three_chunks_out_of_order() {
    let c0 = bytes(1024, 1);
    let c1 = bytes(1024, 2);
    let c2 = bytes(512, 3);
    let mut store = TransferStore::new();
    assert_eq!(store.receive_chunk("book.jpg", 2, 3, c2.clone()), Ok(UploadStatus::Pending));
    assert_eq!(store.receive_chunk("book.jpg", 0, 3, c0.clone()), Ok(UploadStatus::Pending));
    assert_eq!(store.receive_chunk("book.jpg", 1, 3, c1.clone()), Ok(UploadStatus::Assembled));
    let file = assembled(&store, "book.jpg");
    assert_eq!(file.len(), 2560);
    let mut expected = c0.clone();
    expected.extend_from_slice(&c1);
    expected.extend_from_slice(&c2);
    assert_eq!(file, expected);
    assert_eq!(store.read_range("book.jpg", 1024, 1024), Ok(RangeRead::Bytes(c1)));
    assert_eq!(stored_path("book.jpg"), "uploads/book.jpg");
}

#[test]
fn resent_chunk_keeps_last_payload() {
    let mut store = TransferStore::new();
    assert_eq!(store.receive_chunk("a.bin", 1, 3, vec![9, 9, 9, 9]), Ok(UploadStatus::Pending));
    assert_eq!(store.receive_chunk("a.bin", 1, 3, vec![5]), Ok(UploadStatus::Pending));
    assert_eq!(store.receive_chunk("a.bin", 0, 3, vec![1, 2]), Ok(UploadStatus::Pending));
    assert_eq!(store.receive_chunk("a.bin", 2, 3, vec![7]), Ok(UploadStatus::Assembled));
    assert_eq!(assembled(&store, "a.bin"), vec![1, 2, 5, 7]);
}

#[test]
fn arrival_order_does_not_change_the_file() {
    let chunks = [vec![1u8, 2], vec![3u8], vec![4u8, 5, 6], vec![7u8]];
    let orders: [[u64; 4]; 3] = [[0, 1, 2, 3], [3, 1, 0, 2], [2, 3, 1, 0]];
    let mut results = Vec::new();
    for order in orders.iter() {
        let mut store = TransferStore::new();
        for (pos, &k) in order.iter().enumerate() {
            let status = store.receive_chunk("f.txt", k, 4, chunks[k as usize].clone());
            let want = if pos == 3 { UploadStatus::Assembled } else { UploadStatus::Pending };
            assert_eq!(status, Ok(want));
        }
        results.push(assembled(&store, "f.txt"));
    }
    assert_eq!(results[0], vec![1, 2, 3, 4, 5, 6, 7]);
    assert_eq!(results[0], results[1]);
    assert_eq!(results[0], results[2]);
}

#[test]
fn sanitize_removes_traversal() {
    assert_eq!(sanitize_file_name("../../etc/passwd"), "etcpasswd");
    assert_eq!(sanitize_file_name("a/b\\c.png"), "abc.png");
    assert_eq!(sanitize_file_name("./."), "");
    assert_eq!(sanitize_file_name("..."), ".");
    assert_eq!(sanitize_file_name("...."), "");
    assert_eq!(sanitize_file_name("my.cover.jpg"), "my.cover.jpg");
    assert_eq!(sanitize_file_name("ünï/cødé"), "ünïcødé");
    assert_eq!(stored_path("../../etc/passwd"), "uploads/etcpasswd");
}

#[test]
fn traversal_name_stays_under_root() {
    let mut store = TransferStore::new();
    assert_eq!(store.receive_chunk("../../etc/passwd", 0, 1, vec![1]), Ok(UploadStatus::Assembled));
    assert_eq!(store.read_range("etcpasswd", 0, 10), Ok(RangeRead::Bytes(vec![1])));
    assert_eq!(store.read_range("/etc/passwd", 0, 10), Ok(RangeRead::Bytes(vec![1])));
}

#[test]
fn assembles_once_when_last_index_arrives() {
    let mut store = TransferStore::new();
    assert_eq!(store.receive_chunk("x", 0, 2, vec![1]), Ok(UploadStatus::Pending));
    assert_eq!(store.read_range("x", 0, 4), Err(TransferError::NotFound));
    assert_eq!(store.receive_chunk("x", 0, 2, vec![2]), Ok(UploadStatus::Pending));
    assert_eq!(store.receive_chunk("x", 1, 2, vec![3]), Ok(UploadStatus::Assembled));
    assert_eq!(assembled(&store, "x"), vec![2, 3]);
    // The chunks were dropped: a new chunk starts a new upload.
    assert_eq!(store.receive_chunk("x", 1, 2, vec![4]), Ok(UploadStatus::Pending));
    assert_eq!(assembled(&store, "x"), vec![2, 3]);
}

#[test]
fn assembly_with_a_gap_reports_the_missing_chunk() {
    let mut chunks: HashMap<u64, Vec<u8>> = HashMap::new();
    chunks.insert(0, vec![1]);
    chunks.insert(2, vec![3]);
    assert_eq!(assemble_chunks(&chunks, 3), Err(TransferError::MissingChunk(1)));
    chunks.insert(1, vec![2, 2]);
    assert_eq!(assemble_chunks(&chunks, 3), Ok(vec![1, 2, 2, 3]));
    assert_eq!(assemble_chunks(&chunks, 0), Ok(vec![]));
    assert_eq!(assemble_chunks(&chunks, 4), Err(TransferError::MissingChunk(3)));
}

#[test]
fn range_read_boundaries() {
    let data = bytes(100, 4);
    let mut store = TransferStore::new();
    assert_eq!(store.receive_chunk("r.bin", 0, 1, data.clone()), Ok(UploadStatus::Assembled));
    assert_eq!(store.read_range("r.bin", 100, 16), Ok(RangeRead::NoContent));
    assert_eq!(store.read_range("r.bin", 500, 16), Ok(RangeRead::NoContent));
    assert_eq!(store.read_range("r.bin", 99, 16), Ok(RangeRead::Bytes(vec![data[99]])));
    assert_eq!(store.read_range("r.bin", 0, 116), Ok(RangeRead::Bytes(data.clone())));
    assert_eq!(store.read_range("r.bin", 10, 0), Ok(RangeRead::NoContent));
    assert_eq!(store.read_range("r.bin", 10, 5), Ok(RangeRead::Bytes(data[10..15].to_vec())));
    assert_eq!(store.read_range("other.bin", 0, 16), Err(TransferError::NotFound));
}

#[test]
fn slice_range_on_plain_bytes() {
    let data = vec![10u8, 20, 30];
    assert_eq!(slice_range(&data, 3, 1), RangeRead::NoContent);
    assert_eq!(slice_range(&data, 2, 1), RangeRead::Bytes(vec![30]));
    assert_eq!(slice_range(&data, 0, 4), RangeRead::Bytes(vec![10, 20, 30]));
    assert_eq!(slice_range(&data, 1, u64::MAX), RangeRead::Bytes(vec![20, 30]));
    assert_eq!(slice_range(&vec![], 0, 4), RangeRead::NoContent);
}

#[test]
fn distinct_names_do_not_interfere() {
    let mut store = TransferStore::new();
    assert_eq!(store.receive_chunk("fileA", 0, 2, vec![1]), Ok(UploadStatus::Pending));
    assert_eq!(store.receive_chunk("fileB", 0, 2, vec![9]), Ok(UploadStatus::Pending));
    assert_eq!(store.receive_chunk("fileB", 1, 2, vec![8]), Ok(UploadStatus::Assembled));
    assert_eq!(store.read_range("fileA", 0, 8), Err(TransferError::NotFound));
    assert_eq!(store.receive_chunk("fileA", 1, 2, vec![2]), Ok(UploadStatus::Assembled));
    assert_eq!(assembled(&store, "fileA"), vec![1, 2]);
    assert_eq!(assembled(&store, "fileB"), vec![9, 8]);
}

#[test]
fn invalid_chunk_requests_are_rejected() {
    let mut store = TransferStore::new();
    assert_eq!(store.receive_chunk("", 0, 1, vec![1]), Err(TransferError::Validation));
    assert_eq!(store.receive_chunk("../", 0, 1, vec![1]), Err(TransferError::Validation));
    assert_eq!(store.receive_chunk("a", 0, 1, vec![]), Err(TransferError::Validation));
    assert_eq!(store.receive_chunk("a", 1, 1, vec![1]), Err(TransferError::Validation));
    assert_eq!(store.receive_chunk("a", 0, 0, vec![1]), Err(TransferError::Validation));
    assert_eq!(store.receive_chunk("...", 0, 1, vec![1]), Err(TransferError::Validation));
    assert_eq!(store.receive_chunk("./", 0, 1, vec![1]), Err(TransferError::Validation));
    assert_eq!(store.read_range("a", 0, 1), Err(TransferError::NotFound));
    assert!(store.stored_file("a").is_none());
}

#[test]
fn attachment_path_prefixes_stamp() {
    assert_eq!(attachment_path("1700000000", "cover.png"), "./public/uploads/1700000000_cover.png");
}

#[test]
fn attachment_path_sanitizes_name() {
    assert_eq!(attachment_path("17", "../../etc/passwd"), "./public/uploads/17_etcpasswd");
    assert_eq!(attachment_path("17", "a\\b/c.png"), "./public/uploads/17_abc.png");
}

#[test]
fn reupload_keeps_old_file_until_last_chunk() {
    let mut store = TransferStore::new();
    assert_eq!(store.receive_chunk("cover.png", 0, 1, vec![1, 1]), Ok(UploadStatus::Assembled));
    assert_eq!(store.receive_chunk("cover.png", 2, 3, vec![6]), Ok(UploadStatus::Pending));
    assert_eq!(assembled(&store, "cover.png"), vec![1, 1]);
    assert_eq!(store.receive_chunk("cover.png", 0, 3, vec![4]), Ok(UploadStatus::Pending));
    assert_eq!(assembled(&store, "cover.png"), vec![1, 1]);
    assert_eq!(store.receive_chunk("cover.png", 1, 3, vec![5]), Ok(UploadStatus::Assembled));
    assert_eq!(assembled(&store, "cover.png"), vec![4, 5, 6]);
}
