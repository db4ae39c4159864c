use relay_core::buffer::VectoredData;
use relay_core::buffer::BUFFER_SIZE;
use relay_core::buffer::LINE_FEED;

fn pattern(len: usize) -> Vec<u8> {
    (0..len).map(|i| (i % 251) as u8 + 1).collect()
}

fn fill(acc: &mut VectoredData, bytes: &[u8]) {
    let mut off = 0;
    while off < bytes.len() {
        let end = usize::min(bytes.len(), off + acc.room());
        off += acc.read(&bytes[off..end]);
    }
}

fn contents(acc: &VectoredData) -> Vec<u8> {
    let mut out = Vec::new();
    let mut from = 0;
    while from < acc.len() {
        let piece = acc.slice_from(from);
        out.extend_from_slice(piece);
        from += piece.len();
    }
    out
}

#[test]
fn new_buffer_is_empty() {
    let acc = VectoredData::new();
    assert_eq!(acc.len(), 0);
    assert_eq!(acc.room(), BUFFER_SIZE);
    assert!(!acc.contain(LINE_FEED));
    assert!(!acc.contain(0));
}

#[test]
fn chunk_size_is_512() {
    assert_eq!(BUFFER_SIZE, 512);
    assert_eq!(LINE_FEED, b'\n');
}

#[test]
fn read_appends_and_counts() {
    let mut acc = VectoredData::new();
    assert_eq!(acc.read(b"hi\n"), 3);
    assert_eq!(acc.len(), 3);
    assert_eq!(acc.room(), 509);
    assert_eq!(contents(&acc), b"hi\n".to_vec());
    assert_eq!(acc.read(b"there"), 5);
    assert_eq!(contents(&acc), b"hi\nthere".to_vec());
}

#[test]
fn read_of_nothing_returns_zero() {
    let mut acc = VectoredData::new();
    assert_eq!(acc.read(b""), 0);
    assert_eq!(acc.len(), 0);
    assert_eq!(acc.read(b"a"), 1);
    assert_eq!(acc.read(b""), 0);
    assert_eq!(contents(&acc), b"a".to_vec());
}

#[test]
fn read_takes_no_more_than_the_tail_has_room_for() {
    let bytes = pattern(600);
    let mut acc = VectoredData::new();
    assert_eq!(acc.read(&bytes), 512);
    assert_eq!(acc.len(), 512);
    assert_eq!(acc.room(), 512);
    assert_eq!(acc.read(&bytes[512..]), 88);
    assert_eq!(acc.len(), 600);
    assert_eq!(acc.room(), 424);
    assert_eq!(contents(&acc), bytes);
}

#[test]
fn read_into_a_partly_filled_tail() {
    let bytes = pattern(700);
    let mut acc = VectoredData::new();
    assert_eq!(acc.read(&bytes[..500]), 500);
    assert_eq!(acc.room(), 12);
    assert_eq!(acc.read(&bytes[500..]), 12);
    assert_eq!(acc.len(), 512);
    assert_eq!(acc.read(&bytes[512..]), 188);
    assert_eq!(contents(&acc), bytes);
}

#[test]
fn an_empty_read_on_a_full_tail_keeps_the_contents() {
    let bytes = pattern(512);
    let mut acc = VectoredData::new();
    fill(&mut acc, &bytes);
    assert_eq!(acc.read(b""), 0);
    assert_eq!(acc.len(), 512);
    assert_eq!(contents(&acc), bytes);
    assert_eq!(acc.read(b"x"), 1);
    assert_eq!(acc.len(), 513);
    assert_eq!(acc.slice_from(512), b"x");
}

#[test]
fn contain_finds_a_byte_in_any_chunk() {
    let mut bytes = vec![b'a'; 1500];
    let mut acc = VectoredData::new();
    fill(&mut acc, &bytes);
    assert!(acc.contain(b'a'));
    assert!(!acc.contain(LINE_FEED));

    for at in [0usize, 511, 512, 1023, 1024, 1499] {
        bytes = vec![b'a'; 1500];
        bytes[at] = LINE_FEED;
        let mut acc = VectoredData::new();
        fill(&mut acc, &bytes);
        assert!(acc.contain(LINE_FEED), "terminator at {}", at);
        assert!(!acc.contain(b'b'));
    }
}

#[test]
fn contain_ignores_the_unused_part_of_the_tail() {
    let mut acc = VectoredData::new();
    acc.read(b"abc");
    assert!(!acc.contain(0));
    assert!(acc.contain(b'c'));
}

#[test]
fn contain_on_a_length_that_is_a_multiple_of_the_chunk_size() {
    let mut bytes = vec![7u8; 1024];
    bytes[1023] = LINE_FEED;
    let mut acc = VectoredData::new();
    fill(&mut acc, &bytes);
    assert!(acc.contain(LINE_FEED));
    assert!(acc.contain(7));
    assert!(!acc.contain(0));
}

#[test]
fn take_hands_over_and_leaves_empty() {
    let bytes = pattern(900);
    let mut acc = VectoredData::new();
    fill(&mut acc, &bytes);
    let taken = acc.take();
    assert_eq!(taken.len(), 900);
    assert_eq!(contents(&taken), bytes);
    assert_eq!(acc.len(), 0);
    assert_eq!(acc.room(), BUFFER_SIZE);
    assert!(!acc.contain(bytes[0]));
    acc.read(b"next");
    assert_eq!(contents(&acc), b"next".to_vec());
    assert_eq!(contents(&taken), bytes);
}

#[test]
fn slice_from_stops_at_the_chunk_boundary() {
    let bytes = pattern(1300);
    let mut acc = VectoredData::new();
    fill(&mut acc, &bytes);
    assert_eq!(acc.slice_from(0), &bytes[0..512]);
    assert_eq!(acc.slice_from(10), &bytes[10..512]);
    assert_eq!(acc.slice_from(511), &bytes[511..512]);
    assert_eq!(acc.slice_from(512), &bytes[512..1024]);
    assert_eq!(acc.slice_from(1024), &bytes[1024..1300]);
    assert_eq!(acc.slice_from(1299), &bytes[1299..1300]);
}

#[test]
fn contents_survive_every_length_around_a_boundary() {
    for len in [1usize, 2, 511, 512, 513, 1023, 1024, 1025, 2048] {
        let bytes = pattern(len);
        let mut acc = VectoredData::new();
        fill(&mut acc, &bytes);
        assert_eq!(acc.len(), len);
        assert_eq!(contents(&acc), bytes, "length {}", len);
    }
}
