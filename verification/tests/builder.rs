use tar::builder::Builder;
use tar::error::TarError;
use tar::header::{Header, HeaderMode, Metadata};
use tar::walk::{DirEntryInfo, WalkStep};

fn file_meta(len: u64) -> Metadata {
    Metadata { mode: 0o100644, uid: 0, gid: 0, mtime: 0, len }
}

#[test]
fn append_then_into_inner() {
    let mut header = Header::new_gnu();
    header.set_path(b"foo").unwrap();
    header.set_size(4);
    header.set_cksum();
    let data: &[u8] = &[1, 2, 3, 4];
    let mut ar = Builder::new(Vec::new());
    ar.append(&header, data).unwrap();
    let out = ar.into_inner().unwrap();
    assert_eq!(out.len(), 512 + 512 + 1024);
    assert_eq!(&out[..512], &header.as_bytes()[..]);
    assert_eq!(&out[512..516], &[1, 2, 3, 4]);
    assert!(out[516..].iter().all(|b| *b == 0));
}

#[test]
fn data_of_whole_blocks_gets_no_padding() {
    let header = Header::new_gnu();
    let mut ar = Builder::new(Vec::new());
    ar.append(&header, &[7u8; 1024]).unwrap();
    assert_eq!(ar.get_ref().len(), 512 + 1024);
    ar.append(&header, &[]).unwrap();
    assert_eq!(ar.get_ref().len(), 512 + 1024 + 512);
}

#[test]
fn finish_writes_marker_once() {
    let mut ar = Builder::new(Vec::new());
    ar.finish().unwrap();
    ar.finish().unwrap();
    assert_eq!(ar.get_ref().len(), 1024);
    let out = ar.into_inner().unwrap();
    assert_eq!(out, vec![0u8; 1024]);
}

#[test]
fn settings() {
    let mut ar = Builder::new(Vec::new());
    assert!(ar.follows_symlinks());
    ar.follow_symlinks(false);
    assert!(!ar.follows_symlinks());
    ar.mode(HeaderMode::Deterministic);
    ar.get_mut().push(9);
    assert_eq!(ar.get_ref(), &vec![9u8]);
}

#[test]
fn append_data_sets_path_and_checksum() {
    let mut header = Header::new_gnu();
    header.set_size(4);
    header.set_cksum();
    let data: &[u8] = &[1, 2, 3, 4];
    let mut ar = Builder::new(Vec::new());
    ar.append_data(&mut header, b"really/long/path/to/foo", data).unwrap();
    let out = ar.into_inner().unwrap();
    assert_eq!(out.len(), 2048);
    assert_eq!(&out[..24], b"really/long/path/to/foo\0");
    assert_eq!(&out[..512], &header.as_bytes()[..]);
}

#[test]
fn long_path_gets_gnu_long_name_entry() {
    let path: Vec<u8> = std::iter::repeat(b"abcdefghi/".iter().copied()).take(15).flatten().collect();
    assert_eq!(path.len(), 150);
    let mut header = Header::new_gnu();
    header.set_size(0);
    let mut ar = Builder::new(Vec::new());
    ar.append_data(&mut header, &path, &[]).unwrap();
    let out = ar.get_ref().clone();
    // long-name header, 151 bytes of name, padding, then the entry's header
    assert_eq!(out.len(), 512 + 512 + 512);
    assert_eq!(&out[..14], b"././@LongLink\0");
    assert_eq!(out[156], b'L');
    assert_eq!(&out[124..136], b"00000000227\0");
    assert_eq!(&out[100..108], b"0000644\0");
    assert_eq!(&out[512..662], &path[..]);
    assert_eq!(out[662], 0);
    assert_eq!(&out[1024..1124], &path[..100]);
}

#[test]
fn short_path_that_fails_is_refused() {
    let mut header = Header::new_gnu();
    let mut ar = Builder::new(Vec::new());
    assert_eq!(
        ar.append_data(&mut header, b"../x", &[]),
        Err(TarError::PathHasParentDir)
    );
    assert!(ar.get_ref().is_empty());
}

#[test]
fn append_file_and_dir() {
    let mut ar = Builder::new(Vec::new());
    ar.append_file(b"hello.txt", &file_meta(5), b"hello").unwrap();
    let dir = Metadata { mode: 0o040755, uid: 0, gid: 0, mtime: 0, len: 4096 };
    ar.append_dir(b"somedir", &dir).unwrap();
    let out = ar.into_inner().unwrap();
    assert_eq!(out.len(), 512 + 512 + 512 + 1024);
    assert_eq!(&out[..10], b"hello.txt\0");
    assert_eq!(out[156], b'0');
    assert_eq!(&out[512..517], b"hello");
    assert_eq!(&out[1024..1032], b"somedir\0");
    assert_eq!(out[1024 + 156], b'5');
    assert_eq!(&out[1024 + 124..1024 + 136], b"00000000000\0");
}

#[test]
fn append_path_by_type() {
    let mut ar = Builder::new(Vec::new());
    let link = Metadata { mode: 0o120777, uid: 0, gid: 0, mtime: 0, len: 3 };
    ar.append_path(b"ln", &link, &[], b"target").unwrap();
    let out = ar.get_ref().clone();
    assert_eq!(out.len(), 512);
    assert_eq!(out[156], b'2');
    assert_eq!(&out[157..164], b"target\0");
    let fifo = Metadata { mode: 0o010644, uid: 0, gid: 0, mtime: 0, len: 0 };
    assert_eq!(
        ar.append_path_with_name(b"f", &fifo, &[], &[]),
        Err(TarError::UnknownFileType)
    );
    ar.append_path_with_name(b"renamed", &file_meta(2), b"hi", &[]).unwrap();
    assert_eq!(&ar.get_ref()[512..520], b"renamed\0");
}

#[test]
fn long_link_target_gets_gnu_long_link_entry() {
    let target = vec![b't'; 120];
    let link = Metadata { mode: 0o120777, uid: 0, gid: 0, mtime: 0, len: 0 };
    let mut ar = Builder::new(Vec::new());
    ar.append_path(b"ln", &link, &[], &target).unwrap();
    let out = ar.into_inner().unwrap();
    assert_eq!(out.len(), 512 + 512 + 512 + 1024);
    assert_eq!(out[156], b'K');
    assert_eq!(&out[512..632], &target[..]);
    // the link field keeps what the refused copy left there: nothing
    assert_eq!(&out[1024 + 157..1024 + 257], &[0u8; 100][..]);
}

#[test]
fn long_link_target_with_nul_is_carried_by_its_extension_entry() {
    let target = vec![0u8; 100];
    let link = Metadata { mode: 0o120777, uid: 0, gid: 0, mtime: 0, len: 0 };
    let mut ar = Builder::new(Vec::new());
    assert_eq!(ar.append_path_with_name(b"a", &link, &[], &target), Ok(()));
    let out = ar.get_ref();
    assert_eq!(out.len(), 512 + 512 + 512);
    assert_eq!(out[156], b'K');
    assert_eq!(&out[124..136], b"00000000145\0");
    assert_eq!(&out[1024..1026], b"a\0");
    assert_eq!(out[1024 + 156], b'2');
}

#[test]
fn deterministic_mode_applies_to_files_from_disk() {
    let mut ar = Builder::new(Vec::new());
    ar.mode(HeaderMode::Deterministic);
    let meta = Metadata { mode: 0o100700, uid: 5, gid: 6, mtime: 7, len: 0 };
    ar.append_file(b"x", &meta, &[]).unwrap();
    let out = ar.get_ref();
    assert_eq!(&out[100..108], b"0000755\0");
    assert_eq!(&out[108..116], b"0000000\0");
}

#[test]
fn dir_walk_visits_last_listed_first() {
    let ar = Builder::new(Vec::new());
    let mut walk = ar.append_dir_all(b"bardir", b"src");
    match walk.next_step() {
        Some(WalkStep::Dir { src, dest, with_entry }) => {
            assert_eq!(src, b"src".to_vec());
            assert_eq!(dest, b"bardir/".to_vec());
            assert!(with_entry);
        }
        _ => panic!("expected the root directory"),
    }
    walk.push_entries(&vec![
        DirEntryInfo { name: b"a.txt".to_vec(), is_dir: false, is_symlink: false, points_to_dir: false },
        DirEntryInfo { name: b"sub".to_vec(), is_dir: true, is_symlink: false, points_to_dir: true },
        DirEntryInfo { name: b"ln".to_vec(), is_dir: false, is_symlink: true, points_to_dir: true },
    ]);
    match walk.next_step() {
        Some(WalkStep::Dir { src, dest, with_entry }) => {
            assert_eq!(src, b"src/ln".to_vec());
            assert_eq!(dest, b"bardir/ln".to_vec());
            assert!(with_entry);
        }
        _ => panic!("a followed symlink to a directory is descended into"),
    }
    walk.push_entries(&vec![]);
    match walk.next_step() {
        Some(WalkStep::Dir { src, dest, .. }) => {
            assert_eq!(src, b"src/sub".to_vec());
            assert_eq!(dest, b"bardir/sub".to_vec());
        }
        _ => panic!("expected sub"),
    }
    walk.push_entries(&vec![]);
    match walk.next_step() {
        Some(WalkStep::File { src, dest }) => {
            assert_eq!(src, b"src/a.txt".to_vec());
            assert_eq!(dest, b"bardir/a.txt".to_vec());
        }
        _ => panic!("expected a.txt"),
    }
    assert!(walk.next_step().is_none());
}

#[test]
fn dir_walk_without_following() {
    let mut ar = Builder::new(Vec::new());
    ar.follow_symlinks(false);
    let mut walk = ar.append_dir_all(b"", b"src");
    match walk.next_step() {
        Some(WalkStep::Dir { with_entry, dest, .. }) => {
            assert!(!with_entry);
            assert!(dest.is_empty());
        }
        _ => panic!("expected the root directory"),
    }
    walk.push_entries(&vec![DirEntryInfo {
        name: b"ln".to_vec(),
        is_dir: false,
        is_symlink: true,
        points_to_dir: true,
    }]);
    match walk.next_step() {
        Some(WalkStep::Link { src, dest }) => {
            assert_eq!(src, b"src/ln".to_vec());
            assert_eq!(dest, b"ln".to_vec());
        }
        _ => panic!("a symlink is archived as a link"),
    }
}
