use rangetar::archive::{Index, ReadStep};
use rangetar::ints::{converting_min, usize_to_u64};
use rangetar::layout::{header_fields, Entry, ScanError, WriteIndex};
use rangetar::segment::{fill_slice, Segment};

/// Reads `len` bytes from `offset` with one cursor, serving file reads from
/// `files`, the way a caller holding open files does.
fn read_range(index: &Index, files: &[Vec<u8>], offset: u64, len: usize) -> Vec<u8> {
    let mut buf = vec![0xAAu8; len];
    let mut cursor = index.seek(offset);
    let mut filled = 0;
    loop {
        match cursor.read(index, &mut buf, filled) {
            ReadStep::Done(n) => {
                buf.truncate(n);
                return buf;
            }
            ReadStep::ReadFile { file, offset, start } => {
                let data = &files[file];
                let from = (offset as usize).min(data.len());
                let got = (data.len() - from).min(buf.len() - start);
                buf[start..start + got].copy_from_slice(&data[from..from + got]);
                filled = cursor.file_read_done(index, &mut buf, start, got);
            }
        }
    }
}

fn file_entry(path: &str, size: u64, file: usize) -> Entry {
    Entry { path: path.to_string(), size, mode: 0o100644, is_dir: false, file: Some(file) }
}

fn dir_entry(path: &str) -> Entry {
    Entry { path: path.to_string(), size: 4096, mode: 0o40755, is_dir: true, file: None }
}

/// `a.txt` holding "hello", the directory `sub`, and `sub/b.txt`, empty.
fn two_files() -> (Index, Vec<Vec<u8>>) {
    let mut write = WriteIndex::new("root".to_string());
    write.add(file_entry("root/a.txt", 5, 0));
    write.add(dir_entry("root/sub"));
    write.add(file_entry("root/sub/b.txt", 0, 1));
    let index = Index::build(&write).unwrap();
    (index, vec![b"hello".to_vec(), Vec::new()])
}

#[test]
fn widening_keeps_value() {
    assert_eq!(usize_to_u64(0), 0);
    assert_eq!(usize_to_u64(usize::MAX), usize::MAX as u64);
}

#[test]
fn converting_min_picks_smaller() {
    assert_eq!(converting_min(3, 10), 3);
    assert_eq!(converting_min(10, 3), 3);
    assert_eq!(converting_min(u64::MAX, 7), 7);
    assert_eq!(converting_min(7, 7), 7);
}

#[test]
fn fill_slice_sets_every_byte() {
    let mut b = [1u8, 2, 3];
    fill_slice(&mut b, 9);
    assert_eq!(b, [9, 9, 9]);
    let mut e: [u8; 0] = [];
    fill_slice(&mut e, 9);
}

#[test]
fn static_segment_reads_from_offset() {
    let s = Segment::Static(b"abcdef".to_vec());
    assert_eq!(s.byte_size(), 6);
    let mut buf = [0u8; 4];
    assert_eq!(s.read(4, &mut buf), Some(2));
    assert_eq!(&buf[..2], b"ef");
    assert_eq!(s.read(6, &mut buf), Some(0));
    assert_eq!(s.read(1, &mut buf), Some(4));
    assert_eq!(&buf, b"bcde");
}

#[test]
fn zero_segment_reads_zeroes() {
    let s = Segment::Zeroes(3);
    let mut buf = [7u8; 5];
    assert_eq!(s.read(1, &mut buf), Some(2));
    assert_eq!(buf, [0, 0, 7, 7, 7]);
}

#[test]
fn file_segment_is_read_by_caller() {
    let s = Segment::File { file: 0, size: 10 };
    let mut buf = [7u8; 4];
    assert_eq!(s.read(0, &mut buf), None);
    assert_eq!(buf, [7u8; 4]);
}

#[test]
fn shrunk_file_is_zero_filled_to_recorded_size() {
    let s = Segment::File { file: 0, size: 10 };
    // the file now holds 3 bytes from offset 4 on
    let mut buf = [1u8, 2, 3, 9, 9, 9, 9, 9];
    let n = s.finish_file_read(4, &mut buf, 0, 3);
    assert_eq!(n, 6);
    assert_eq!(&buf[..6], &[1, 2, 3, 0, 0, 0]);
    assert_eq!(&buf[6..], &[9, 9]);
}

#[test]
fn grown_file_is_cut_at_recorded_size() {
    let s = Segment::File { file: 0, size: 10 };
    let mut buf = [5u8; 8];
    let n = s.finish_file_read(7, &mut buf, 0, 8);
    assert_eq!(n, 3);
    assert_eq!(buf, [5u8; 8]);
}

#[test]
fn file_read_fills_from_start() {
    let s = Segment::File { file: 0, size: 4 };
    let mut buf = [8u8, 8, 1, 9, 9, 9];
    let n = s.finish_file_read(0, &mut buf, 2, 1);
    assert_eq!(n, 4);
    assert_eq!(buf, [8, 8, 1, 0, 0, 0]);
}

#[test]
fn empty_tree_is_two_zero_blocks() {
    let write = WriteIndex::new("empty".to_string());
    let index = Index::build(&write).unwrap();
    assert_eq!(index.total_length(), 1024);
    assert_eq!(index.segments(), &[Segment::Zeroes(1024)]);
    let bytes = read_range(&index, &[], 0, 2000);
    assert_eq!(bytes, vec![0u8; 1024]);
}

#[test]
fn two_files_segment_sequence() {
    let (index, _) = two_files();
    let segs = index.segments();
    assert_eq!(segs.len(), 7);
    assert!(matches!(&segs[0], Segment::Static(h) if h.len() == 512));
    assert_eq!(segs[1], Segment::File { file: 0, size: 5 });
    assert_eq!(segs[2], Segment::Zeroes(507));
    assert!(matches!(&segs[3], Segment::Static(h) if h.len() == 512));
    assert!(matches!(&segs[4], Segment::Static(h) if h.len() == 512));
    assert_eq!(segs[5], Segment::File { file: 1, size: 0 });
    assert_eq!(segs[6], Segment::Zeroes(1024));
    assert_eq!(index.total_length(), 512 + 512 + 512 + 512 + 1024);
    assert_eq!(index.root(), "root");
    let total: u64 = segs.iter().map(|s| s.byte_size()).sum();
    assert_eq!(total, index.total_length());
}

#[test]
fn two_files_archive_extracts() {
    let (index, files) = two_files();
    let bytes = read_range(&index, &files, 0, index.total_length() as usize);
    assert_eq!(bytes.len() as u64, index.total_length());
    assert_eq!(&bytes[2048..], &[0u8; 1024][..]);
    let mut archive = tar::Archive::new(&bytes[..]);
    let mut found = Vec::new();
    for entry in archive.entries().unwrap() {
        let mut entry = entry.unwrap();
        let path = entry.path().unwrap().to_string_lossy().into_owned();
        let header = entry.header();
        assert_eq!(header.uid().unwrap(), 0);
        assert_eq!(header.gid().unwrap(), 0);
        assert_eq!(header.mtime().unwrap(), 0);
        let mode = header.mode().unwrap();
        let mut content = Vec::new();
        std::io::Read::read_to_end(&mut entry, &mut content).unwrap();
        found.push((path, mode, content));
    }
    assert_eq!(found.len(), 3);
    assert_eq!(found[0], ("root/a.txt".to_string(), 0o644, b"hello".to_vec()));
    assert_eq!(found[1].0, "root/sub");
    assert_eq!(found[1].1, 0o755);
    assert_eq!(found[2], ("root/sub/b.txt".to_string(), 0o644, Vec::new()));
}

#[test]
fn header_block_fields() {
    let e = Entry { path: "d/x".to_string(), size: 5, mode: 0o104755, is_dir: false, file: Some(0) };
    let f = header_fields(&e);
    assert_eq!(f.mode, 0o755);
    assert_eq!(f.size, 5);
    assert_eq!(f.type_flag, b'0');
    let mut write = WriteIndex::new("d".to_string());
    write.add(e);
    let index = Index::build(&write).unwrap();
    let h = match &index.segments()[0] {
        Segment::Static(h) => h.clone(),
        other => panic!("not a header: {:?}", other),
    };
    assert_eq!(&h[0..3], b"d/x");
    assert_eq!(&h[257..263], b"ustar\0");
    assert_eq!(&h[263..265], b"00");
    assert_eq!(h[156], b'0');
    assert_eq!(&h[124..135], b"00000000005");
    let parsed = tar::Header::from_byte_slice(&h);
    assert_eq!(parsed.mode().unwrap(), 0o755);
    let stored = parsed.cksum().unwrap();
    let sum: u32 = h.iter().enumerate().map(|(i, b)| if (148..156).contains(&i) { 32 } else { *b as u32 }).sum();
    assert_eq!(stored, sum);
}

#[test]
fn directory_header_has_no_content() {
    let e = dir_entry("top");
    let f = header_fields(&e);
    assert_eq!(f.size, 0);
    assert_eq!(f.type_flag, b'5');
    assert_eq!(f.mode, 0o755);
    assert_eq!(f.uid, 0);
    assert_eq!(f.gid, 0);
}

#[test]
fn unopenable_file_is_skipped() {
    let mut write = WriteIndex::new("r".to_string());
    write.add(Entry { path: "r/gone".to_string(), size: 9, mode: 0o644, is_dir: false, file: None });
    let index = Index::build(&write).unwrap();
    assert_eq!(index.total_length(), 1024);
}

#[test]
fn absolute_path_fails_header_encoding() {
    let mut write = WriteIndex::new("/".to_string());
    write.add(file_entry("/abs/x", 1, 0));
    assert_eq!(Index::build(&write).unwrap_err(), ScanError::HeaderEncoding);
}

#[test]
fn oversized_archive_is_refused() {
    let entries = vec![file_entry("big", u64::MAX - 600, 0)];
    let headers = vec![vec![0u8; 512]];
    assert_eq!(Index::assemble("r".to_string(), &entries, &headers).unwrap_err(), ScanError::TooLarge);
}

#[test]
fn chunked_reads_match_one_read() {
    let (index, files) = two_files();
    let total = index.total_length();
    let whole = read_range(&index, &files, 0, total as usize);
    for (o1, o2) in [(0u64, 3072u64), (510, 1030), (514, 515), (3000, 3072), (100, 100)] {
        let one = read_range(&index, &files, o1, (o2 - o1) as usize);
        assert_eq!(&one[..], &whole[o1 as usize..o2 as usize]);
        let mut pieces = Vec::new();
        let mut at = o1;
        while at < o2 {
            let step = (o2 - at).min(7);
            pieces.extend(read_range(&index, &files, at, step as usize));
            at += step;
        }
        assert_eq!(pieces, one);
    }
}

#[test]
fn seek_past_end_reads_nothing() {
    let (index, files) = two_files();
    assert!(read_range(&index, &files, 3072, 10).is_empty());
    assert!(read_range(&index, &files, 9999, 10).is_empty());
    assert_eq!(read_range(&index, &files, 3070, 10), vec![0, 0]);
}

#[test]
fn length_is_fixed_when_files_change() {
    let (index, _) = two_files();
    let shrunk = vec![b"he".to_vec(), Vec::new()];
    let grown = vec![b"hello, world".to_vec(), b"more".to_vec()];
    let a = read_range(&index, &shrunk, 0, 4000);
    let b = read_range(&index, &grown, 0, 4000);
    assert_eq!(a.len(), 3072);
    assert_eq!(b.len(), 3072);
    assert_eq!(&a[512..517], b"he\0\0\0");
    assert_eq!(&b[512..517], b"hello");
    assert_eq!(&b[517..1024], &[0u8; 507][..]);
    assert_eq!(index.total_length(), 3072);
}

#[test]
fn archive_is_whole_blocks() {
    let mut write = WriteIndex::new("t".to_string());
    write.add(file_entry("t/one", 1, 0));
    write.add(file_entry("t/block", 512, 1));
    write.add(file_entry("t/more", 513, 2));
    write.add(dir_entry("t/d"));
    let index = Index::build(&write).unwrap();
    assert_eq!(index.total_length() % 512, 0);
    assert_eq!(index.total_length(), 512 * 2 + 512 * 2 + 512 * 3 + 512 + 1024);
}

#[test]
fn read_from_gives_whole_archive() {
    let (index, files) = two_files();
    let mut buf = vec![0xEEu8; 4000];
    let mut cursor = index.seek(0);
    let n = cursor.read_from(&index, &files, &mut buf);
    assert_eq!(n, 3072);
    assert_eq!(&buf[512..517], b"hello");
    assert_eq!(&buf[517..1024], &[0u8; 507][..]);
    assert_eq!(&buf[2048..3072], &[0u8; 1024][..]);
    assert_eq!(&buf[..3072], &read_range(&index, &files, 0, 3072)[..]);
    assert_eq!(cursor.read_from(&index, &files, &mut buf), 0);
}

#[test]
fn read_from_in_chunks_on_one_cursor() {
    let (index, files) = two_files();
    let mut whole = vec![0u8; 3072];
    assert_eq!(index.seek(0).read_from(&index, &files, &mut whole), 3072);
    let mut cursor = index.seek(500);
    let mut got = Vec::new();
    let mut chunk = [0u8; 13];
    loop {
        let n = cursor.read_from(&index, &files, &mut chunk);
        got.extend_from_slice(&chunk[..n]);
        if n < chunk.len() {
            break;
        }
    }
    assert_eq!(&got[..], &whole[500..]);
}

#[test]
fn read_from_shrunk_and_grown_files() {
    let (index, _) = two_files();
    let mut buf = [9u8; 10];
    let shrunk = vec![b"he".to_vec(), Vec::new()];
    assert_eq!(index.seek(512).read_from(&index, &shrunk, &mut buf), 10);
    assert_eq!(&buf, b"he\0\0\0\0\0\0\0\0");
    let grown = vec![b"hello, world".to_vec(), b"x".to_vec()];
    let mut buf = [9u8; 10];
    assert_eq!(index.seek(512).read_from(&index, &grown, &mut buf), 10);
    assert_eq!(&buf, b"hello\0\0\0\0\0");
    let mut buf = [9u8; 3];
    assert_eq!(index.seek(515).read_from(&index, &[], &mut buf), 3);
    assert_eq!(buf, [0, 0, 0]);
}
