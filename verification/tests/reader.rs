use tar::builder::Builder;
use tar::header::{HeaderMode, Metadata};
use tar::io::Cursor;
use tar::reader::{append_file_read, BuilderReader, ReadProgress, TarStep};
use tar::walk::DirEntryInfo;

fn meta(mode: u32, len: u64) -> Metadata {
    Metadata { mode, uid: 1, gid: 2, mtime: 3, len }
}

/// Reads the whole archive with buffers of `chunk` bytes, answering the steps
/// from a tiny in-memory tree: `dir/` holds `a` (5 bytes) and `sub/`.
fn read_all(chunk: usize, roots: BuilderReader) -> Vec<u8> {
    let mut t = roots.into_reader::<Cursor>();
    let mut out = Vec::new();
    loop {
        let mut buf = vec![0u8; chunk];
        let mut filled = 0;
        let short;
        loop {
            match t.read(&mut buf, filled).unwrap() {
                ReadProgress::Done(n) => {
                    filled += n;
                    short = filled < chunk;
                    break;
                }
                ReadProgress::Next(n, step) => {
                    filled += n;
                    match step {
                        TarStep::Dir { src, entry } => {
                            if src == b"dir".to_vec() {
                                t.push_entries(&vec![
                                    DirEntryInfo { name: b"a".to_vec(), is_dir: false, is_symlink: false, points_to_dir: false },
                                    DirEntryInfo { name: b"sub".to_vec(), is_dir: true, is_symlink: false, points_to_dir: true },
                                ]);
                            } else {
                                t.push_entries(&vec![]);
                            }
                            if let Some(d) = entry {
                                t.start_dir(&d, &meta(0o040755, 4096)).unwrap();
                            }
                        }
                        TarStep::File { src, dest } => {
                            let data = if src == b"dir/a".to_vec() { b"hello".to_vec() } else { b"xy".to_vec() };
                            let len = data.len() as u64;
                            t.start_file(&dest, &meta(0o100644, len), Cursor::new(data)).unwrap();
                        }
                    }
                }
            }
        }
        out.extend_from_slice(&buf[..filled]);
        if short {
            return out;
        }
    }
}

fn expected() -> Vec<u8> {
    let mut b = Builder::new(Vec::new());
    b.append_file(b"one", &meta(0o100644, 2), b"xy").unwrap();
    b.append_dir(b"top/", &meta(0o040755, 4096)).unwrap();
    b.append_dir(b"top/sub", &meta(0o040755, 4096)).unwrap();
    b.append_file(b"top/a", &meta(0o100644, 5), b"hello").unwrap();
    b.into_inner().unwrap()
}

fn roots() -> BuilderReader {
    let mut r = BuilderReader::new();
    r.append_file(b"one", b"file").unwrap();
    r.append_dir_all(b"top", b"dir").unwrap();
    r
}

#[test]
fn reader_streams_what_the_builder_writes() {
    let want = expected();
    assert_eq!(read_all(10240, roots()), want);
}

#[test]
fn reader_with_small_buffers() {
    let want = expected();
    assert_eq!(read_all(7, roots()), want);
    assert_eq!(read_all(512, roots()), want);
    assert_eq!(read_all(1, roots()), want);
}

#[test]
fn empty_archive_is_the_end_marker() {
    assert_eq!(read_all(4096, BuilderReader::new()), vec![0u8; 1024]);
}

#[test]
fn entry_reader_reads_head_data_padding() {
    let mut e = append_file_read(b"f", &meta(0o100644, 3), Cursor::new(b"abc".to_vec()), HeaderMode::Complete).unwrap();
    let mut buf = vec![0u8; 2000];
    let n = e.read(&mut buf, 0).unwrap();
    assert_eq!(n, 1024);
    let mut b = Builder::new(Vec::new());
    b.append_file(b"f", &meta(0o100644, 3), b"abc").unwrap();
    assert_eq!(&buf[..1024], &b.get_ref()[..]);
    assert_eq!(e.read(&mut buf, 0).unwrap(), 0);
}

#[test]
fn end_marker_split_over_two_reads() {
    let mut t = BuilderReader::new().into_reader::<Cursor>();
    let mut first = vec![0xFFu8; 1000];
    match t.read(&mut first, 0).unwrap() {
        ReadProgress::Done(n) => assert_eq!(n, 1000),
        _ => panic!("no step in an empty archive"),
    }
    assert_eq!(first, vec![0u8; 1000]);
    let mut second = vec![0xFFu8; 1000];
    match t.read(&mut second, 0).unwrap() {
        ReadProgress::Done(n) => assert_eq!(n, 24),
        _ => panic!("no step in an empty archive"),
    }
    assert_eq!(&second[..24], &[0u8; 24][..]);
    assert_eq!(&second[24..], &[0xFFu8; 976][..]);
    let mut third = vec![0xFFu8; 16];
    match t.read(&mut third, 0).unwrap() {
        ReadProgress::Done(n) => assert_eq!(n, 0),
        _ => panic!("no step in an empty archive"),
    }
    assert_eq!(third, vec![0xFFu8; 16]);
}

#[test]
fn entry_with_empty_data_gets_no_padding() {
    let mut e = append_file_read(b"f", &meta(0o100644, 0), Cursor::new(Vec::new()), HeaderMode::Complete).unwrap();
    let mut buf = vec![0xFFu8; 1024];
    assert_eq!(e.read(&mut buf, 0).unwrap(), 512);
    assert_eq!(&buf[512..], &[0xFFu8; 512][..]);
}

#[test]
fn roots_are_read_in_the_order_added() {
    let mut r = BuilderReader::new();
    r.append_file(b"n1", b"file").unwrap();
    r.append_file(b"n2", b"other").unwrap();
    let got = read_all(4096, r);
    let mut b = Builder::new(Vec::new());
    b.append_file(b"n1", &meta(0o100644, 2), b"xy").unwrap();
    b.append_file(b"n2", &meta(0o100644, 2), b"xy").unwrap();
    assert_eq!(got, b.into_inner().unwrap());
}

#[test]
fn a_read_without_room_changes_nothing() {
    let mut e = append_file_read(b"f", &meta(0o100644, 3), Cursor::new(b"abc".to_vec()), HeaderMode::Complete).unwrap();
    let mut buf = vec![0u8; 600];
    assert_eq!(e.read(&mut buf, 0).unwrap(), 600);
    let mut none: Vec<u8> = Vec::new();
    assert_eq!(e.read(&mut none, 0).unwrap(), 0);
    assert_eq!(e.read(&mut buf, 600).unwrap(), 0);
    let mut rest = vec![0u8; 1000];
    assert_eq!(e.read(&mut rest, 0).unwrap(), 424);
    let mut b = Builder::new(Vec::new());
    b.append_file(b"f", &meta(0o100644, 3), b"abc").unwrap();
    let mut all = buf.clone();
    all.extend_from_slice(&rest[..424]);
    assert_eq!(&all[..], &b.get_ref()[..]);

    let mut t = BuilderReader::new().into_reader::<Cursor>();
    let mut empty: Vec<u8> = Vec::new();
    match t.read(&mut empty, 0).unwrap() {
        ReadProgress::Done(n) => assert_eq!(n, 0),
        _ => panic!("no step without room"),
    }
    let mut full = vec![0xFFu8; 2048];
    match t.read(&mut full, 0).unwrap() {
        ReadProgress::Done(n) => assert_eq!(n, 1024),
        _ => panic!("no step in an empty archive"),
    }
}
