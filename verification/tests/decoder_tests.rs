use tar_minimal::decoder::{EntryKind, EntryPlan, HeaderStep, UnpackError};
use tar_minimal::octal::OctalError;
use tar_minimal::{Decoder, TarHeader};

fn dec() -> Decoder<()> {
    Decoder::new(())
}

/// Writes the header's own checksum into its checksum field.
fn seal(h: &mut TarHeader) {
    h.checksum = [0u8; 8];
    let sum = h.calculate_checksum() as u64;
    TarHeader::set_octal(&mut h.checksum, sum);
}

#[test]
fn parse_octal_plain_fields() {
    let d = dec();
    assert_eq!(d.parse_octal(b"0000644\0"), Ok(0o644));
    assert_eq!(d.parse_octal(b"00000000057\0"), Ok(47));
    assert_eq!(d.parse_octal(b"777"), Ok(511));
}

#[test]
fn parse_octal_empty_text_is_zero() {
    let d = dec();
    assert_eq!(d.parse_octal(b""), Ok(0));
    assert_eq!(d.parse_octal(b"\0\0\0"), Ok(0));
    assert_eq!(d.parse_octal(b"   644"), Ok(0));
}

#[test]
fn parse_octal_stops_at_space_or_nul() {
    let d = dec();
    assert_eq!(d.parse_octal(b"644 999"), Ok(0o644));
    assert_eq!(d.parse_octal(b"12\x0099"), Ok(0o12));
}

#[test]
fn parse_octal_trims_white_space() {
    let d = dec();
    assert_eq!(d.parse_octal(b"\t17\n"), Ok(0o17));
    assert_eq!(d.parse_octal(b"\x0b17\x0c\r"), Ok(0o17));
    // U+00A0 NO-BREAK SPACE and U+3000 IDEOGRAPHIC SPACE are white space
    assert_eq!(d.parse_octal("\u{a0}17\u{3000}".as_bytes()), Ok(0o17));
    assert_eq!(d.parse_octal(b"\t\t"), Err(OctalError::Unparsable));
}

#[test]
fn parse_octal_sign() {
    let d = dec();
    assert_eq!(d.parse_octal(b"+17"), Ok(0o17));
    assert_eq!(d.parse_octal(b"+"), Err(OctalError::Unparsable));
    assert_eq!(d.parse_octal(b"-1"), Err(OctalError::Unparsable));
    assert_eq!(d.parse_octal(b"++1"), Err(OctalError::Unparsable));
}

#[test]
fn parse_octal_rejects_non_octal_digits() {
    let d = dec();
    assert_eq!(d.parse_octal(b"8"), Err(OctalError::Unparsable));
    assert_eq!(d.parse_octal(b"12a"), Err(OctalError::Unparsable));
    assert_eq!(d.parse_octal("\u{e9}".as_bytes()), Err(OctalError::Unparsable));
}

#[test]
fn parse_octal_rejects_invalid_utf8() {
    let d = dec();
    assert_eq!(d.parse_octal(&[b'1', 0xff, b'2']), Err(OctalError::InvalidSequence));
    assert_eq!(d.parse_octal(&[0xc2]), Err(OctalError::InvalidSequence));
    assert_eq!(d.parse_octal(&[0xff, 0]), Err(OctalError::InvalidSequence));
}

#[test]
fn parse_octal_limits() {
    let d = dec();
    assert_eq!(d.parse_octal(b"1777777777777777777777"), Ok(u64::MAX));
    assert_eq!(d.parse_octal(b"2000000000000000000000"), Err(OctalError::Unparsable));
    assert_eq!(d.parse_octal(b"7777777777777777777777z"), Err(OctalError::Unparsable));
    assert_eq!(d.parse_octal(b"0000000000000000000000000017"), Ok(15));
}

#[test]
fn read_header_zero_block_ends_archive() {
    let d = dec();
    let block = [0u8; 512];
    assert_eq!(d.read_header(&block, b"/tmp/out"), Ok(HeaderStep::End));
}

#[test]
fn read_header_reads_back_regular_file() {
    let d = dec();
    let h = TarHeader::for_regular_file(b"test_env/test_file.txt", 0o644, 1000, 1000, 47, 0);
    let block = h.to_bytes();
    let step = d.read_header(&block, b"/tmp/extracted_logs").unwrap();
    assert_eq!(
        step,
        HeaderStep::Entry(EntryPlan {
            name: b"test_env/test_file.txt".to_vec(),
            target: b"/tmp/extracted_logs/test_env/test_file.txt".to_vec(),
            size: 47,
            mode: 0o644,
            kind: EntryKind::File,
        })
    );
}

#[test]
fn read_header_name_stops_at_nul() {
    let d = dec();
    let h = TarHeader::for_regular_file(b"abc\0def", 0o600, 0, 0, 0, 0);
    match d.read_header(&h.to_bytes(), b"out/").unwrap() {
        HeaderStep::Entry(p) => {
            assert_eq!(p.name, b"abc".to_vec());
            assert_eq!(p.target, b"out/abc".to_vec());
        }
        HeaderStep::End => panic!("expected an entry"),
    }
}

#[test]
fn read_header_refuses_absolute_name_outside_destination() {
    let d = dec();
    let h = TarHeader::for_regular_file(b"/etc/passwd", 0o644, 0, 0, 0, 0);
    assert_eq!(d.read_header(&h.to_bytes(), b"/tmp/out"), Err(UnpackError::PathTraversal));
    assert_eq!(d.read_header(&h.to_bytes(), b"out"), Err(UnpackError::PathTraversal));
}

#[test]
fn read_header_accepts_absolute_name_inside_destination() {
    let d = dec();
    let h = TarHeader::for_regular_file(b"/tmp/out//x/./y", 0o644, 0, 0, 0, 0);
    match d.read_header(&h.to_bytes(), b"/tmp/out/").unwrap() {
        HeaderStep::Entry(p) => assert_eq!(p.target, b"/tmp/out//x/./y".to_vec()),
        HeaderStep::End => panic!("expected an entry"),
    }
}

#[test]
fn read_header_refuses_names_climbing_out_with_dot_dot() {
    let d = dec();
    let h = TarHeader::for_regular_file(b"../evil.txt", 0o644, 0, 0, 5, 0);
    assert_eq!(d.read_header(&h.to_bytes(), b"/tmp/x/out"), Err(UnpackError::PathTraversal));
    let h = TarHeader::for_regular_file(b"a/../../escape", 0o644, 0, 0, 0, 0);
    assert_eq!(d.read_header(&h.to_bytes(), b"/tmp/out"), Err(UnpackError::PathTraversal));
    let h = TarHeader::for_regular_file(b"/tmp/out/../etc", 0o644, 0, 0, 0, 0);
    assert_eq!(d.read_header(&h.to_bytes(), b"/tmp/out"), Err(UnpackError::PathTraversal));
    let h = TarHeader::for_regular_file(b"..", 0o644, 0, 0, 0, 0);
    assert_eq!(d.read_header(&h.to_bytes(), b"out"), Err(UnpackError::PathTraversal));
}

#[test]
fn read_header_accepts_dot_dot_that_stays_inside() {
    let d = dec();
    let h = TarHeader::for_regular_file(b"a/../b/./c", 0o644, 0, 0, 0, 0);
    match d.read_header(&h.to_bytes(), b"/tmp/out").unwrap() {
        HeaderStep::Entry(p) => assert_eq!(p.target, b"/tmp/out/a/../b/./c".to_vec()),
        HeaderStep::End => panic!("expected an entry"),
    }
    let h = TarHeader::for_regular_file(b"./x", 0o644, 0, 0, 0, 0);
    assert!(d.read_header(&h.to_bytes(), b".").is_ok());
}

#[test]
fn read_header_refuses_checksum_mismatch() {
    let d = dec();
    let mut h = TarHeader::for_regular_file(b"a.txt", 0o644, 0, 0, 5, 0);
    h.checksum = *b"0000000\0";
    assert_eq!(d.read_header(&h.to_bytes(), b"out"), Err(UnpackError::ChecksumMismatch));
    let mut h = TarHeader::for_regular_file(b"a.txt", 0o644, 0, 0, 5, 0);
    h.name[0] = b'b';
    assert_eq!(d.read_header(&h.to_bytes(), b"out"), Err(UnpackError::ChecksumMismatch));
    let mut h = TarHeader::for_regular_file(b"a.txt", 0o644, 0, 0, 5, 0);
    h.checksum = *b"zzzzzzz\0";
    assert_eq!(d.read_header(&h.to_bytes(), b"out"), Err(UnpackError::Octal(OctalError::Unparsable)));
}

#[test]
fn read_header_accepts_space_terminated_checksum() {
    let d = dec();
    let mut h = TarHeader::for_regular_file(b"a.txt", 0o644, 0, 0, 5, 0);
    let sum = h.calculate_checksum();
    let text = format!("{:06o}\0 ", sum);
    h.checksum.copy_from_slice(text.as_bytes());
    assert!(d.read_header(&h.to_bytes(), b"out").is_ok());
}

#[test]
fn read_header_bad_size_field() {
    let d = dec();
    let mut h = TarHeader::for_regular_file(b"f", 0o644, 0, 0, 0, 0);
    h.size = *b"0000000009x\0";
    seal(&mut h);
    assert_eq!(d.read_header(&h.to_bytes(), b"out"), Err(UnpackError::Octal(OctalError::Unparsable)));
    h.size[0] = 0xff;
    seal(&mut h);
    assert_eq!(
        d.read_header(&h.to_bytes(), b"out"),
        Err(UnpackError::Octal(OctalError::InvalidSequence))
    );
}

#[test]
fn read_header_size_checked_before_mode() {
    let d = dec();
    let mut h = TarHeader::for_regular_file(b"f", 0o644, 0, 0, 0, 0);
    h.mode = *b"999\0\0\0\0\0";
    seal(&mut h);
    assert_eq!(d.read_header(&h.to_bytes(), b"out"), Err(UnpackError::Octal(OctalError::Unparsable)));
    h.size[0] = 0xff;
    seal(&mut h);
    assert_eq!(
        d.read_header(&h.to_bytes(), b"out"),
        Err(UnpackError::Octal(OctalError::InvalidSequence))
    );
}

#[test]
fn read_header_entry_kinds() {
    let d = dec();
    let h = TarHeader::for_directory(b"d", 0o755, 0, 0, 0);
    match d.read_header(&h.to_bytes(), b"out").unwrap() {
        HeaderStep::Entry(p) => {
            assert_eq!(p.kind, EntryKind::Directory);
            assert_eq!(p.target, b"out/d".to_vec());
        }
        HeaderStep::End => panic!("expected an entry"),
    }
    let mut h = TarHeader::for_regular_file(b"l", 0o777, 0, 0, 0, 0);
    h.typeflag = b'2';
    seal(&mut h);
    match d.read_header(&h.to_bytes(), b"out").unwrap() {
        HeaderStep::Entry(p) => assert_eq!(p.kind, EntryKind::Other),
        HeaderStep::End => panic!("expected an entry"),
    }
    h.typeflag = 0;
    seal(&mut h);
    match d.read_header(&h.to_bytes(), b"out").unwrap() {
        HeaderStep::Entry(p) => assert_eq!(p.kind, EntryKind::File),
        HeaderStep::End => panic!("expected an entry"),
    }
}

#[test]
fn read_header_mode_keeps_low_bits() {
    let d = dec();
    let mut h = TarHeader::new();
    h.name[0] = b'f';
    h.mode = *b"77777777";
    seal(&mut h);
    match d.read_header(&h.to_bytes(), b"").unwrap() {
        HeaderStep::Entry(p) => {
            assert_eq!(p.mode, 0o77777777);
            assert_eq!(p.size, 0);
            assert_eq!(p.target, b"f".to_vec());
        }
        HeaderStep::End => panic!("expected an entry"),
    }
}

#[test]
fn reader_is_kept() {
    let mut d = Decoder::new(vec![1u8, 2, 3]);
    d.reader_mut().push(4);
    assert_eq!(d.reader_mut().len(), 4);
}

#[test]
fn set_octal_then_parse_octal_reads_back() {
    let d = dec();
    for v in [0u64, 1, 7, 8, 0o644, 0o7777777] {
        let mut field = [0u8; 8];
        TarHeader::set_octal(&mut field, v);
        assert_eq!(d.parse_octal(&field), Ok(v));
    }
    for v in [0u64, 47, 0o77777777777] {
        let mut field = [0u8; 12];
        TarHeader::set_octal(&mut field, v);
        assert_eq!(d.parse_octal(&field), Ok(v));
    }
    // too many digits: the most significant ones are kept
    let mut field = [0u8; 8];
    TarHeader::set_octal(&mut field, 0o123456701);
    assert_eq!(d.parse_octal(&field), Ok(0o1234567));
}

#[test]
fn parse_octal_refuses_foreign_bytes() {
    let d = dec();
    for field in [&b"0000a44\0"[..], b"9", b"\t8\0", b"Z", b"\xff17", b"1\xff"] {
        assert!(d.parse_octal(field).is_err());
    }
}

#[test]
fn read_header_refuses_escapes_from_current_directory() {
    let d = dec();
    for dst in [&b"."[..], b"", b"a/..", b"./"] {
        for name in [&b"/etc/passwd"[..], b"../x", b"a/../../x", b".."] {
            let h = TarHeader::for_regular_file(name, 0o644, 0, 0, 0, 0);
            assert_eq!(d.read_header(&h.to_bytes(), dst), Err(UnpackError::PathTraversal));
        }
        let h = TarHeader::for_regular_file(b"sub/file.txt", 0o644, 0, 0, 0, 0);
        assert!(d.read_header(&h.to_bytes(), dst).is_ok());
    }
}

#[test]
fn read_header_refuses_escapes_from_parent_directory() {
    let d = dec();
    let h = TarHeader::for_regular_file(b"../x", 0o644, 0, 0, 0, 0);
    assert_eq!(d.read_header(&h.to_bytes(), b".."), Err(UnpackError::PathTraversal));
    let h = TarHeader::for_regular_file(b"/x", 0o644, 0, 0, 0, 0);
    assert_eq!(d.read_header(&h.to_bytes(), b".."), Err(UnpackError::PathTraversal));
    let h = TarHeader::for_regular_file(b"x", 0o644, 0, 0, 0, 0);
    assert!(d.read_header(&h.to_bytes(), b"..").is_ok());
}
