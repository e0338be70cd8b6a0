use tar::error::TarError;
use tar::header::{EntryType, Header, HeaderMode, Metadata};

fn field(h: &Header, start: usize, len: usize) -> Vec<u8> {
    h.as_bytes()[start..start + len].to_vec()
}

fn checksum_of(bytes: &[u8; 512]) -> u32 {
    let mut sum = 0u32;
    for (i, b) in bytes.iter().enumerate() {
        if (148..156).contains(&i) {
            sum += 32;
        } else {
            sum += *b as u32;
        }
    }
    sum
}

#[test]
fn new_gnu_has_magic_and_zero_time() {
    let h = Header::new_gnu();
    assert_eq!(field(&h, 257, 6), b"ustar ".to_vec());
    assert_eq!(field(&h, 263, 2), b" \0".to_vec());
    assert_eq!(field(&h, 136, 12), b"00000000000\0".to_vec());
    assert_eq!(field(&h, 0, 100), vec![0u8; 100]);
}

#[test]
fn size_is_written_in_octal() {
    let mut h = Header::new_gnu();
    h.set_size(4);
    assert_eq!(field(&h, 124, 12), b"00000000004\0".to_vec());
    h.set_size(0o777);
    assert_eq!(field(&h, 124, 12), b"00000000777\0".to_vec());
}

#[test]
fn large_size_uses_base256() {
    let mut h = Header::new_gnu();
    h.set_size(8589934592);
    assert_eq!(
        field(&h, 124, 12),
        vec![0x80, 0, 0, 0, 0, 0, 0, 2, 0, 0, 0, 0]
    );
}

#[test]
fn large_uid_uses_base256_in_eight_bytes() {
    let mut h = Header::new_gnu();
    h.set_uid(2097152);
    assert_eq!(field(&h, 108, 8), vec![0x80, 0, 0, 0, 0, 0x20, 0, 0]);
    h.set_uid(2097151);
    assert_eq!(field(&h, 108, 8), b"7777777\0".to_vec());
}

#[test]
fn mode_keeps_seven_octal_digits() {
    let mut h = Header::new_gnu();
    h.set_mode(0o100644);
    assert_eq!(field(&h, 100, 8), b"0100644\0".to_vec());
}

#[test]
fn checksum_reads_back() {
    let mut h = Header::new_gnu();
    h.set_path(b"foo").unwrap();
    h.set_size(4);
    h.set_cksum();
    let sum = checksum_of(h.as_bytes());
    let text = String::from_utf8(field(&h, 148, 7)).unwrap();
    assert_eq!(u32::from_str_radix(&text, 8).unwrap(), sum);
    let before = h.as_bytes().to_vec();
    h.set_cksum();
    assert_eq!(h.as_bytes().to_vec(), before);
}

#[test]
fn entry_type_byte() {
    let mut h = Header::new_gnu();
    h.set_entry_type(EntryType::new(b'5'));
    assert_eq!(h.as_bytes()[156], b'5');
    assert_eq!(EntryType::new(b'L').as_byte(), b'L');
}

#[test]
fn path_is_normalized() {
    let mut h = Header::new_gnu();
    h.set_path(b"a//b/./c/").unwrap();
    assert_eq!(&field(&h, 0, 7), b"a/b/c/\0");
    let mut h = Header::new_gnu();
    h.set_path(b"./a").unwrap();
    assert_eq!(&field(&h, 0, 2), b"a\0");
    let mut h = Header::new_gnu();
    h.set_path(b".").unwrap();
    assert_eq!(&field(&h, 0, 2), b".\0");
}

#[test]
fn path_errors() {
    let mut h = Header::new_gnu();
    assert_eq!(h.set_path(b"/etc/passwd"), Err(TarError::PathNotRelative));
    assert_eq!(h.set_path(b"a/../b"), Err(TarError::PathHasParentDir));
    assert_eq!(h.set_path(b""), Err(TarError::PathEmpty));
    assert_eq!(h.set_path(b"a\0b"), Err(TarError::ValueContainsNul));
    assert_eq!(h.set_path(&[b'x'; 101]), Err(TarError::ValueTooLong));
}

#[test]
fn path_of_exactly_one_hundred_bytes_has_no_nul() {
    let mut h = Header::new_gnu();
    h.set_path(&[b'y'; 100]).unwrap();
    assert_eq!(field(&h, 0, 100), vec![b'y'; 100]);
    assert_eq!(h.as_bytes()[100], 0);
}

#[test]
fn failed_path_keeps_what_was_copied() {
    let mut h = Header::new_gnu();
    assert_eq!(h.set_path(b"ab/../c"), Err(TarError::PathHasParentDir));
    assert_eq!(&field(&h, 0, 3), b"ab\0");
}

#[test]
fn link_name_keeps_every_component() {
    let mut h = Header::new_gnu();
    h.set_link_name(b"/abs/../x").unwrap();
    assert_eq!(&field(&h, 157, 10), b"/abs/../x\0");
}

#[test]
fn metadata_complete() {
    let mut h = Header::new_gnu();
    let meta = Metadata { mode: 0o100755, uid: 1000, gid: 100, mtime: 1_600_000_000, len: 10 };
    h.set_metadata_in_mode(&meta, HeaderMode::Complete);
    assert_eq!(field(&h, 100, 8), b"0100755\0".to_vec());
    assert_eq!(field(&h, 108, 8), b"0001750\0".to_vec());
    assert_eq!(field(&h, 116, 8), b"0000144\0".to_vec());
    assert_eq!(field(&h, 124, 12), b"00000000012\0".to_vec());
    assert_eq!(field(&h, 136, 12), b"13727410000\0".to_vec());
    assert_eq!(h.as_bytes()[156], b'0');
    assert_eq!(field(&h, 329, 8), b"0000000\0".to_vec());
}

#[test]
fn metadata_deterministic() {
    let mut h = Header::new_gnu();
    let dir = Metadata { mode: 0o040700, uid: 1000, gid: 100, mtime: 5, len: 4096 };
    h.set_metadata_in_mode(&dir, HeaderMode::Deterministic);
    assert_eq!(field(&h, 100, 8), b"0000755\0".to_vec());
    assert_eq!(field(&h, 108, 8), b"0000000\0".to_vec());
    assert_eq!(field(&h, 124, 12), b"00000000000\0".to_vec());
    assert_eq!(field(&h, 136, 12), format!("{:011o}\0", 1153704088u64).into_bytes());
    assert_eq!(h.as_bytes()[156], b'5');
    let mut h = Header::new_gnu();
    let file = Metadata { mode: 0o100600, uid: 1, gid: 1, mtime: 5, len: 3 };
    h.set_metadata(&file);
    h.set_metadata_in_mode(&file, HeaderMode::Deterministic);
    assert_eq!(field(&h, 100, 8), b"0000644\0".to_vec());
    assert_eq!(field(&h, 124, 12), b"00000000003\0".to_vec());
}

#[test]
fn symlink_size_is_zero() {
    let mut h = Header::new_gnu();
    let link = Metadata { mode: 0o120777, uid: 0, gid: 0, mtime: 0, len: 12 };
    assert!(link.is_symlink());
    assert!(!link.is_dir());
    assert!(!link.is_file());
    h.set_metadata(&link);
    assert_eq!(h.as_bytes()[156], b'2');
    assert_eq!(field(&h, 124, 12), b"00000000000\0".to_vec());
}
