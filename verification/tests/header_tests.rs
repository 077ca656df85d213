use tar_minimal::header::padding_after;
use tar_minimal::TarHeader;

#[test]
fn new_header_has_ustar_magic_and_zeros() {
    let h = TarHeader::new();
    assert_eq!(&h.magic, b"ustar\0");
    assert_eq!(&h.version, b"00");
    assert!(h.name.iter().all(|&b| b == 0));
    assert!(h.size.iter().all(|&b| b == 0));
    assert_eq!(h.typeflag, 0);
}

#[test]
fn set_octal_pads_with_zeros_and_keeps_last_byte() {
    let mut field = [0u8; 8];
    TarHeader::set_octal(&mut field, 0o644);
    assert_eq!(&field, b"0000644\0");

    let mut field = [b'x'; 8];
    TarHeader::set_octal(&mut field, 0);
    assert_eq!(&field, b"0000000x");

    let mut size = [0u8; 12];
    TarHeader::set_octal(&mut size, 47);
    assert_eq!(&size, b"00000000057\0");
}

#[test]
fn set_octal_keeps_most_significant_digits_when_too_long() {
    let mut field = [0u8; 3];
    TarHeader::set_octal(&mut field, 0o777);
    assert_eq!(&field, b"77\0");

    let mut field = [9u8; 1];
    TarHeader::set_octal(&mut field, 12345);
    assert_eq!(field, [9u8]);
}

#[test]
fn set_octal_full_u64() {
    let mut field = [0u8; 23];
    TarHeader::set_octal(&mut field, u64::MAX);
    assert_eq!(&field, b"1777777777777777777777\0");
}

#[test]
fn checksum_of_new_header() {
    let h = TarHeader::new();
    // "ustar\0" + "00" + eight spaces for the checksum field
    assert_eq!(h.calculate_checksum(), 559 + 96 + 8 * 32);
}

#[test]
fn checksum_ignores_checksum_field() {
    let mut h = TarHeader::new();
    let before = h.calculate_checksum();
    h.checksum = [b'9'; 8];
    assert_eq!(h.calculate_checksum(), before);
    h.typeflag = b'0';
    assert_eq!(h.calculate_checksum(), before + 48);
}

#[test]
fn to_bytes_layout() {
    let mut h = TarHeader::new();
    h.name[0] = b'a';
    h.typeflag = b'5';
    h.padding[11] = 7;
    let b = h.to_bytes();
    assert_eq!(b.len(), 512);
    assert_eq!(b[0], b'a');
    assert_eq!(b[156], b'5');
    assert_eq!(&b[257..263], b"ustar\0");
    assert_eq!(&b[263..265], b"00");
    assert_eq!(b[511], 7);
}

#[test]
fn from_bytes_reads_back_to_bytes() {
    let h = TarHeader::for_regular_file(b"dir/file.txt", 0o755, 1000, 100, 12345, 1700000000);
    let b = h.to_bytes();
    let back = TarHeader::from_bytes(&b);
    assert_eq!(back.to_bytes(), b);
    assert_eq!(back.name, h.name);
    assert_eq!(back.size, h.size);
    assert_eq!(back.checksum, h.checksum);
}

#[test]
fn regular_file_header_fields() {
    let h = TarHeader::for_regular_file(b"test_env/test_file.txt", 0o100644, 1000, 1000, 47, 0);
    assert_eq!(&h.name[..22], b"test_env/test_file.txt");
    assert!(h.name[22..].iter().all(|&b| b == 0));
    assert_eq!(&h.mode, b"0100644\0");
    assert_eq!(&h.uid, b"0001750\0");
    assert_eq!(&h.gid, b"0001750\0");
    assert_eq!(&h.size, b"00000000057\0");
    assert_eq!(&h.mtime, b"00000000000\0");
    assert_eq!(h.typeflag, b'0');
    assert_eq!(&h.magic, b"ustar\0");
    assert_eq!(&h.version, b"00");
}

#[test]
fn regular_file_header_checksum_matches() {
    let h = TarHeader::for_regular_file(b"a.txt", 0o644, 0, 0, 5, 1);
    let sum = h.calculate_checksum() as u64;
    let text = std::str::from_utf8(&h.checksum[..7]).unwrap();
    assert_eq!(u64::from_str_radix(text, 8).unwrap(), sum);
    assert_eq!(h.checksum[7], 0);
}

#[test]
fn regular_file_header_truncates_long_names() {
    let name = vec![b'n'; 150];
    let h = TarHeader::for_regular_file(&name, 0, 0, 0, 0, 0);
    assert!(h.name.iter().all(|&b| b == b'n'));
}

#[test]
fn padding_fills_blocks() {
    assert_eq!(padding_after(0), 0);
    assert_eq!(padding_after(1), 511);
    assert_eq!(padding_after(47), 465);
    assert_eq!(padding_after(512), 0);
    assert_eq!(padding_after(513), 511);
    assert_eq!(padding_after(u64::MAX), 1);
}

#[test]
fn directory_header_fields() {
    let h = TarHeader::for_directory(b"source_folder/subdir", 0o40755, 1000, 1000, 5);
    assert_eq!(&h.name[..20], b"source_folder/subdir");
    assert_eq!(&h.mode, b"0040755\0");
    assert_eq!(&h.size, b"00000000000\0");
    assert_eq!(&h.mtime, b"00000000005\0");
    assert_eq!(h.typeflag, b'5');
    let sum = h.calculate_checksum() as u64;
    let text = std::str::from_utf8(&h.checksum[..7]).unwrap();
    assert_eq!(u64::from_str_radix(text, 8).unwrap(), sum);
}
