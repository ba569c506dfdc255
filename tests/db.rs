use bb5_cyclers::db::{Db, DbError, Index};

fn header(time: u32, size: u32, total: u32, sorting: u8) -> Vec<u8> {
    let mut b = Vec::new();
    b.extend_from_slice(&time.to_be_bytes());
    b.extend_from_slice(&size.to_be_bytes());
    b.extend_from_slice(&total.to_be_bytes());
    b.push(sorting);
    b
}

#[test]
fn header_is_read_big_endian() {
    let db = Db::from_header(&header(14322029, 74342035, 88664064, 1)).unwrap();
    assert_eq!(db.header.undecided_time_count, 14322029);
    assert_eq!(db.header.undecided_size_count, 74342035);
    assert_eq!(db.header.undecided_total, 88664064);
    assert!(db.header.lexicographic_sorting);
    let db = Db::from_header(&header(1, 2, 3, 0)).unwrap();
    assert!(!db.header.lexicographic_sorting);
}

#[test]
fn truncated_header_is_refused() {
    let mut b = header(1, 2, 3, 0);
    b.pop();
    assert_eq!(Db::from_header(&b).err(), Some(DbError::TruncatedHeader));
}

#[test]
fn bad_sorting_flag_is_refused() {
    assert_eq!(Db::from_header(&header(1, 2, 3, 2)).err(), Some(DbError::BadSortingFlag));
}

#[test]
fn inconsistent_total_is_refused() {
    assert_eq!(Db::from_header(&header(1, 2, 4, 0)).err(), Some(DbError::InconsistentTotal));
    assert_eq!(
        Db::from_header(&header(u32::MAX, 1, 0, 0)).err(),
        Some(DbError::InconsistentTotal)
    );
}

#[test]
fn record_offsets_skip_the_header_slot() {
    let db = Db::from_header(&header(2, 1, 3, 0)).unwrap();
    assert_eq!(db.record_offset(0), Some(30));
    assert_eq!(db.record_offset(2), Some(90));
    assert_eq!(db.record_offset(3), None);
}

#[test]
fn index_reads_big_endian_words() {
    let idx = Index::from_bytes(&[0, 0, 0, 1, 0, 0, 1, 0, 1, 2, 3, 4]).unwrap();
    assert_eq!(idx.data, vec![1, 256, 0x01020304]);
    assert!(Index::from_bytes(&[0, 0, 0, 1, 0]).is_none());
    assert_eq!(Index::from_bytes(&[]).unwrap().data, Vec::<u32>::new());
}

#[test]
fn index_bytes_round_trip() {
    let idx = Index { data: vec![279081, 4231819, 11636047] };
    let bytes = idx.to_bytes();
    assert_eq!(bytes[..4], 279081u32.to_be_bytes());
    assert_eq!(Index::from_bytes(&bytes).unwrap().data, idx.data);
}

#[test]
fn sorted_index_check() {
    assert!(Index { data: vec![1, 2, 30] }.assert_sorted());
    assert!(Index { data: vec![7] }.assert_sorted());
    assert!(!Index { data: vec![] }.assert_sorted());
    assert!(!Index { data: vec![1, 1] }.assert_sorted());
    assert!(!Index { data: vec![1, 3, 2] }.assert_sorted());
}

#[test]
fn header_with_zero_counts_is_accepted() {
    let db = Db::from_header(&header(0, 0, 0, 0)).unwrap();
    assert_eq!(db.header.undecided_total, 0);
    assert_eq!(db.record_offset(0), None);
}
