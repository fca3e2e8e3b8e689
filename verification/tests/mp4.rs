use acestream_audio::mp4::{Piece, Scanner, LONG_HEADER, SHORT_HEADER};
use bytes::Bytes;

fn box_of(kind: &[u8; 4], body: &[u8]) -> Vec<u8> {
    let total = (SHORT_HEADER + body.len()) as u32;
    let mut v = total.to_be_bytes().to_vec();
    v.extend_from_slice(kind);
    v.extend_from_slice(body);
    v
}

fn large_box_of(kind: &[u8; 4], body: &[u8]) -> Vec<u8> {
    let total = (LONG_HEADER + body.len()) as u64;
    let mut v = 1u32.to_be_bytes().to_vec();
    v.extend_from_slice(kind);
    v.extend_from_slice(&total.to_be_bytes());
    v.extend_from_slice(body);
    v
}

/// A minimal but structurally valid fMP4 byte stream.
/// Layout: ftyp(24) moov(48) | moof(28) mdat(108) | moof(28) mdat(88)
fn stream() -> Vec<u8> {
    let mut v = box_of(b"ftyp", b"isom-brand-bytes");
    v.extend(box_of(b"moov", &vec![0xAA; 40]));
    v.extend(box_of(b"moof", &vec![0xBB; 20]));
    v.extend(box_of(b"mdat", &vec![0xCC; 100]));
    v.extend(box_of(b"moof", &vec![0xDD; 20]));
    v.extend(box_of(b"mdat", &vec![0xEE; 80]));
    v
}

const INIT_LEN: usize = 24 + 48;

fn collect(pieces: &[Piece]) -> Vec<u8> {
    pieces.iter().flat_map(|p| p.data().to_vec()).collect()
}

/// Feed the stream in fixed-size slices to exercise header straddling.
fn scan_in_chunks(data: &[u8], chunk: usize) -> (Scanner, Vec<Piece>) {
    let mut s = Scanner::new();
    let mut all = Vec::new();
    for c in data.chunks(chunk) {
        all.extend(s.push(Bytes::copy_from_slice(c)));
    }
    (s, all)
}

fn fragment_offsets(pieces: &[Piece]) -> Vec<usize> {
    let mut offsets = Vec::new();
    let mut at = 0usize;
    for p in pieces {
        if p.fragment_start() {
            offsets.push(at);
        }
        at += p.data().len();
    }
    offsets
}

#[test]
fn is_lossless_at_every_chunk_size() {
    let data = stream();
    for size in 1..=data.len() {
        let (_, pieces) = scan_in_chunks(&data, size);
        assert_eq!(collect(&pieces), data, "chunk size {size} lost bytes");
    }
}

#[test]
fn init_segment_is_everything_before_the_first_moof() {
    let data = stream();
    let want = &data[..INIT_LEN];
    for size in [1, 3, 7, 8, 9, 16, 64, 4096] {
        let (s, _) = scan_in_chunks(&data, size);
        assert_eq!(
            s.init_segment().as_deref(),
            Some(want),
            "chunk size {size}"
        );
    }
}

#[test]
fn init_segment_is_unavailable_until_the_first_moof_arrives() {
    let mut s = Scanner::new();
    s.push(Bytes::from(box_of(b"ftyp", b"isom")));
    assert_eq!(s.init_segment(), None);
    s.push(Bytes::from(box_of(b"moov", &vec![0; 8])));
    assert_eq!(s.init_segment(), None, "moov alone must not complete init");
    s.push(Bytes::from(box_of(b"moof", &vec![0; 8])));
    assert!(s.init_segment().is_some());
}

#[test]
fn fragment_starts_land_exactly_on_moof_headers() {
    let data = stream();
    for size in [1, 5, 8, 13, 64, 4096] {
        let (_, pieces) = scan_in_chunks(&data, size);
        assert_eq!(
            fragment_offsets(&pieces),
            vec![INIT_LEN, INIT_LEN + 28 + 108],
            "chunk {size}"
        );
    }
}

#[test]
fn tolerates_free_boxes_inside_the_init_segment() {
    let mut data = box_of(b"ftyp", b"isom");
    data.extend(box_of(b"free", &vec![0; 16]));
    data.extend(box_of(b"moov", &vec![0xAA; 32]));
    data.extend(box_of(b"moof", &vec![0xBB; 8]));
    data.extend(box_of(b"mdat", &vec![0xCC; 8]));

    let (s, pieces) = scan_in_chunks(&data, 7);
    assert_eq!(collect(&pieces), data);
    assert_eq!(s.init_segment().map(|b| b.len()), Some(12 + 24 + 40));
    assert!(!s.failed());
}

#[test]
fn handles_64_bit_largesize_boxes() {
    let mut data = box_of(b"ftyp", b"isom");
    data.extend(box_of(b"moov", &vec![0xAA; 16]));
    data.extend(box_of(b"moof", &vec![0xBB; 8]));
    // A large mdat is exactly where the 64-bit form shows up in practice.
    data.extend(large_box_of(b"mdat", &vec![0xCC; 200]));
    data.extend(box_of(b"moof", &vec![0xDD; 8]));

    for size in [1, 9, 15, 16, 17, 128] {
        let (s, pieces) = scan_in_chunks(&data, size);
        assert_eq!(collect(&pieces), data, "chunk {size}");
        assert!(!s.failed(), "chunk {size}");
        assert_eq!(
            fragment_offsets(&pieces).len(),
            2,
            "chunk {size}: largesize must not hide the second moof"
        );
    }
}

#[test]
fn degrades_to_passthrough_on_garbage_without_losing_bytes() {
    // size == 0 means "to end of file" and is not valid in a live stream.
    let mut data = box_of(b"ftyp", b"isom");
    data.extend(0u32.to_be_bytes());
    data.extend(b"mdat");
    data.extend(vec![0xCC; 32]);

    for size in [1, 6, 13, 256] {
        let (s, pieces) = scan_in_chunks(&data, size);
        assert!(s.failed(), "chunk {size}");
        assert_eq!(collect(&pieces), data, "chunk {size}: must stay lossless");
        // A partial init segment would decode to nothing for a late joiner.
        assert_eq!(s.init_segment(), None, "chunk {size}");
    }
}

#[test]
fn rejects_a_stream_that_does_not_start_with_ftyp() {
    let data = box_of(b"junk", &vec![0; 16]);
    let (s, pieces) = scan_in_chunks(&data, 4);
    assert!(s.failed());
    assert_eq!(collect(&pieces), data);
}

#[test]
fn rejects_a_box_smaller_than_its_own_header() {
    let mut data = box_of(b"ftyp", b"isom");
    data.extend(3u32.to_be_bytes()); // size 3 < 8-byte header
    data.extend(b"moov");
    data.extend(vec![0; 8]);

    let (s, pieces) = scan_in_chunks(&data, 5);
    assert!(s.failed());
    assert_eq!(collect(&pieces), data);
}

#[test]
fn media_runs_are_coalesced_within_a_chunk() {
    let data = stream();
    let mut s = Scanner::new();
    let pieces = s.push(Bytes::from(data));
    let media: Vec<_> = pieces.iter().filter(|p| !matches!(p, Piece::Init(_))).collect();
    // One piece per fragment, not one per box header and body.
    assert_eq!(media.len(), 2);
    assert!(media.iter().all(|p| p.fragment_start()));
    assert_eq!(media[0].data().len(), 28 + 108);
    assert_eq!(media[1].data().len(), 28 + 88);
}

#[test]
fn nothing_is_buffered_across_pushes() {
    // Latency guard: a chunk that completes no box must still come straight
    // back out, minus only the held-back header.
    let mut s = Scanner::new();
    s.push(Bytes::from(box_of(b"ftyp", b"isom")));
    s.push(Bytes::from(box_of(b"moof", &vec![0; 64])));
    let out = s.push(Bytes::from(vec![0xCC; 32]));
    assert_eq!(collect(&out).len(), 32, "media must not be held back");
}

#[test]
fn chunk_boundaries_do_not_move_the_marks() {
    let data = stream();
    let (whole, at_once) = scan_in_chunks(&data, data.len());
    for size in [1, 2, 11, 73, 200] {
        let (s, pieces) = scan_in_chunks(&data, size);
        assert_eq!(fragment_offsets(&pieces), fragment_offsets(&at_once), "chunk {size}");
        assert_eq!(s.init_segment(), whole.init_segment(), "chunk {size}");
    }
}

#[test]
fn a_broken_stream_passes_through_whole_chunks() {
    let mut s = Scanner::new();
    s.push(Bytes::from(box_of(b"junk", &vec![0; 16])));
    assert!(s.failed());
    let out = s.push(Bytes::from(box_of(b"moof", &vec![0; 16])));
    assert_eq!(out.len(), 1);
    assert!(!out[0].fragment_start(), "boundaries are not reliable any more");
    assert_eq!(out[0].data().len(), 24);
}

#[test]
fn a_stream_joined_at_a_moof_has_no_init_segment() {
    let mut s = Scanner::new();
    let out = s.push(Bytes::from(box_of(b"moof", &vec![0; 16])));
    assert!(!s.failed());
    assert_eq!(fragment_offsets(&out), vec![0]);
    assert_eq!(s.init_segment(), None);
}

#[test]
fn a_long_header_may_be_cut_anywhere() {
    let mut data = box_of(b"ftyp", b"isom");
    data.extend(large_box_of(b"moof", &vec![1; 5]));
    for cut in 0..data.len() {
        let mut s = Scanner::new();
        let mut pieces = s.push(Bytes::copy_from_slice(&data[..cut]));
        pieces.extend(s.push(Bytes::copy_from_slice(&data[cut..])));
        assert_eq!(collect(&pieces), data, "cut at {cut}");
        assert_eq!(fragment_offsets(&pieces), vec![12], "cut at {cut}");
    }
}
