use cdxj_indexer::gz::{ByteSource, GzipMember, GzipMemberIterator, GzipOffsetReader, ScanError};

const HEADER: [u8; 10] = [0x1f, 0x8b, 0x08, 0x00, 0x00, 0x00, 0x00, 0x00, 0x00, 0x03];

/// A container of `total` filler bytes with the header written at each offset.
fn container(offsets: &[usize], total: usize) -> Vec<u8> {
    let mut data = vec![0xaau8; total];
    for &at in offsets {
        data[at..at + 10].copy_from_slice(&HEADER);
    }
    data
}

fn members_of(data: Vec<u8>) -> Vec<GzipMember> {
    GzipOffsetReader::new(ByteSource::new(data)).unwrap().get_members()
}

fn pairs(members: &[GzipMember]) -> Vec<(u64, u64)> {
    members.iter().map(|m| (m.offset, m.length)).collect()
}

#[test]
fn member_new_has_no_length() {
    let m = GzipMember::new(42);
    assert_eq!(m.offset, 42);
    assert_eq!(m.length, 0);
}

#[test]
fn three_members_in_one_window() {
    let members = members_of(container(&[0, 1000, 2500], 3200));
    assert_eq!(pairs(&members), vec![(0, 1000), (1000, 1500), (2500, 700)]);
}

#[test]
fn single_member_longer_than_a_window() {
    let members = members_of(container(&[0], 10000));
    assert_eq!(pairs(&members), vec![(0, 10000)]);
}

#[test]
fn header_only_container() {
    let members = members_of(container(&[0], 10));
    assert_eq!(pairs(&members), vec![(0, 10)]);
}

#[test]
fn members_tile_the_container() {
    let offsets = [0usize, 5000, 5010, 9100, 9107 + 10, 20000, 24576, 30000];
    let total = 33333;
    let members = members_of(container(&offsets, total));
    assert_eq!(members.len(), offsets.len());
    for (m, &at) in members.iter().zip(offsets.iter()) {
        assert_eq!(m.offset, at as u64);
    }
    for w in members.windows(2) {
        assert!(w[0].offset < w[1].offset);
        assert_eq!(w[0].offset + w[0].length, w[1].offset);
    }
    let sum: u64 = members.iter().map(|m| m.length).sum();
    assert_eq!(members[0].offset + sum, total as u64);
}

#[test]
fn header_across_every_split_of_the_window_edge() {
    for at in (4096 - 11)..=(4096 + 1) {
        let members = members_of(container(&[0, at], 9000));
        assert_eq!(pairs(&members), vec![(0, at as u64), (at as u64, 9000 - at as u64)]);
    }
    for at in (8192 - 11)..=(8192 + 1) {
        let members = members_of(container(&[0, at], 9000));
        assert_eq!(pairs(&members), vec![(0, at as u64), (at as u64, 9000 - at as u64)]);
    }
}

#[test]
fn header_across_the_edge_after_an_earlier_member() {
    let members = members_of(container(&[0, 100, 4090, 6000], 7000));
    assert_eq!(pairs(&members), vec![(0, 100), (100, 3990), (4090, 1910), (6000, 1000)]);
}

#[test]
fn false_start_inside_a_window_is_no_boundary() {
    let mut data = container(&[0, 2000], 3000);
    data[500..505].copy_from_slice(&[0x1f, 0x8b, 0x08, 0x00, 0x01]);
    data[1995] = 0x1f;
    let members = members_of(data);
    assert_eq!(pairs(&members), vec![(0, 2000), (2000, 1000)]);
}

#[test]
fn false_start_at_the_window_edge_is_put_back() {
    // The window ends with the first three bytes of the header; what
    // follows is not its rest but a whole header.
    let mut data = container(&[0, 4096], 6000);
    data[4093..4096].copy_from_slice(&[0x1f, 0x8b, 0x08]);
    let members = members_of(data);
    assert_eq!(pairs(&members), vec![(0, 4096), (4096, 6000 - 4096)]);
}

#[test]
fn window_ending_in_the_first_byte_only() {
    let mut data = container(&[0, 5000], 6000);
    data[4095] = 0x1f;
    let members = members_of(data);
    assert_eq!(pairs(&members), vec![(0, 5000), (5000, 1000)]);
}

#[test]
fn candidate_cut_off_by_the_end_is_no_boundary() {
    let mut data = container(&[0], 100);
    data[99] = 0x1f;
    let members = members_of(data);
    assert_eq!(pairs(&members), vec![(0, 100)]);
}

#[test]
fn false_start_as_the_last_byte_of_source_and_window() {
    let mut data = container(&[0, 100], 4096);
    data[4095] = 0x1f;
    let mut it = GzipOffsetReader::new(ByteSource::new(data)).unwrap().iter_members();
    assert_eq!(it.next(), Some(GzipMember { offset: 0, length: 100 }));
    assert_eq!(it.next(), Some(GzipMember { offset: 100, length: 3996 }));
    assert_eq!(it.next(), None);
}

#[test]
fn candidate_cut_off_before_the_window_is_full() {
    // The window ends at 4096 with a partial header; only five bytes follow.
    let mut data = container(&[0, 2000], 4101);
    data[4090..4096].copy_from_slice(&[0x1f, 0x8b, 0x08, 0x00, 0x00, 0x00]);
    let members = members_of(data);
    assert_eq!(pairs(&members), vec![(0, 2000), (2000, 2101)]);
}

#[test]
fn partial_header_at_the_end_of_the_source() {
    let mut data = container(&[0, 5000], 9000);
    data[8993..9000].copy_from_slice(&[0x1f, 0x8b, 0x08, 0x00, 0x00, 0x00, 0x00]);
    let members = members_of(data);
    assert_eq!(pairs(&members), vec![(0, 5000), (5000, 4000)]);
}

#[test]
fn wrong_magic_is_rejected() {
    let data = vec![0u8; 64];
    let r = GzipOffsetReader::new(ByteSource::new(data));
    assert!(matches!(r, Err(ScanError::InvalidFormat)));
}

#[test]
fn second_magic_byte_is_checked() {
    let mut data = vec![0u8; 64];
    data[0] = 0x1f;
    let r = GzipOffsetReader::new(ByteSource::new(data));
    assert!(matches!(r, Err(ScanError::InvalidFormat)));
}

#[test]
fn short_source_is_an_io_failure() {
    let r = GzipOffsetReader::new(ByteSource::new(vec![0x1f, 0x8b, 0x08]));
    assert!(matches!(r, Err(ScanError::IoFailure)));
}

#[test]
fn opening_starts_at_the_cursor_and_puts_it_back() {
    let mut source = ByteSource::new(container(&[7, 50], 80));
    let skipped = source.read(7);
    assert_eq!(skipped.len(), 7);
    let members = GzipOffsetReader::new(source).unwrap().get_members();
    assert_eq!(pairs(&members), vec![(7, 43), (50, 30)]);
}

#[test]
fn stream_ends_and_stays_ended() {
    let reader = GzipOffsetReader::new(ByteSource::new(container(&[0, 30], 64))).unwrap();
    let mut it = reader.iter_members();
    assert_eq!(it.next(), Some(GzipMember { offset: 0, length: 30 }));
    assert_eq!(it.next(), Some(GzipMember { offset: 30, length: 34 }));
    assert_eq!(it.next(), None);
    assert_eq!(it.next(), None);
}

#[test]
fn iterator_with_a_given_pattern() {
    let mut it = GzipMemberIterator::new(ByteSource::new(container(&[20], 50)), HEADER);
    assert_eq!(it.next(), Some(GzipMember { offset: 20, length: 30 }));
    assert_eq!(it.next(), None);
}

#[test]
fn source_reads_and_seeks() {
    let mut s = ByteSource::new(vec![1, 2, 3, 4, 5]);
    assert_eq!(s.len(), 5);
    assert_eq!(s.read(2), vec![1, 2]);
    assert_eq!(s.position(), 2);
    assert_eq!(s.read_exact(2), Some(vec![3, 4]));
    s.seek_back(3);
    assert_eq!(s.position(), 1);
    assert_eq!(s.read(10), vec![2, 3, 4, 5]);
    assert_eq!(s.read(10), Vec::<u8>::new());
    s.seek_back(1);
    assert_eq!(s.read_exact(2), None);
    assert_eq!(s.position(), 4);
    assert_eq!(s.read_exact(1), Some(vec![5]));
}

#[test]
fn rest_of_a_stream_is_collected() {
    let mut it =
        GzipOffsetReader::new(ByteSource::new(container(&[0, 10, 20, 30], 40))).unwrap().iter_members();
    assert_eq!(it.next(), Some(GzipMember { offset: 0, length: 10 }));
    let rest = it.collect_members();
    assert_eq!(pairs(&rest), vec![(10, 10), (20, 10), (30, 10)]);
    assert_eq!(it.next(), None);
}

#[test]
fn overlapping_headers_in_one_window_are_all_reported() {
    // A pattern that begins again inside itself: 1f 8b 1f 8b ... stands at 0 and at 2.
    let pattern = [0x1f, 0x8b, 0x1f, 0x8b, 0x1f, 0x8b, 0x1f, 0x8b, 0x1f, 0x8b];
    let mut data = vec![0u8; 50];
    data[0..10].copy_from_slice(&pattern);
    data[2..12].copy_from_slice(&pattern);
    let members = members_of(data);
    assert_eq!(pairs(&members), vec![(0, 2), (2, 48)]);
}
