//! Unit behaviour of the byte readers, the catalogue locator, the trailer
//! reader and the codec dispatcher, each over a byte slice and a position.

use flate2::{write::ZlibEncoder, Compression};
use std::io::Write;
use dar_forensic::catalog::{read_inode_base, skip_fsa};
use dar_forensic::codec::decode_stream;
use dar_forensic::locate::{find_catalogue, find_catalogue_within, read_terminateur};
use dar_forensic::wire::{read_infinint, read_nul_bytes, read_u8, skip, skip_nul_string, DarError};

const SEQT_CATALOGUE: [u8; 6] = [0xAD, 0xFD, 0xEA, 0x77, 0x21, 0x43];

fn infinint(data: &[u8]) -> Result<u64, DarError> {
    let mut pos = 0u64;
    read_infinint(data, &mut pos)
}

// ── read_infinint ─────────────────────────────────────────────────────────────

#[test]
fn lib_infinint_decodes_value() {
    let data = [0x80u8, 0x00, 0x00, 0x00, 0x0d];
    assert_eq!(infinint(&data[..]).unwrap(), 13);
}

#[test]
fn lib_infinint_bad_preamble_returns_corrupt() {
    // 0x03 = two bits set — not a valid infinint terminal.
    let data = [0x03u8, 0x00, 0x00, 0x00, 0x00];
    let err = infinint(&data[..]).unwrap_err();
    assert!(matches!(&err, DarError::Corrupt(_)));
}

#[test]
fn lib_infinint_truncated_returns_io() {
    // Only 2 bytes — 5 are needed.
    let err = infinint(&[0x80u8, 0x00][..]).unwrap_err();
    assert!(matches!(err, DarError::Io(_)));
}

#[test]
fn lib_infinint_0x40_preamble_reads_8_data_bytes() {
    // 0x40 terminal: 8 data bytes, big-endian.
    let mut data = vec![0x40u8];
    data.extend_from_slice(&[0x00, 0x00, 0x00, 0x00, 0x5d, 0x15, 0x93, 0x31]);
    assert_eq!(infinint(&data).unwrap(), 0x5d15_9331u64);
}

#[test]
fn lib_infinint_multi_bit_terminal_returns_corrupt() {
    // 0x60 = 0110_0000 — two bits set, not a valid terminal.
    let data = [0x60u8, 0x00, 0x00, 0x00, 0x00];
    let err = infinint(&data[..]).unwrap_err();
    assert!(matches!(&err, DarError::Corrupt(_)));
}

#[test]
fn infinint_bad_terminal_consumes_only_the_terminal() {
    let data = [0x03u8, 0x00, 0x00, 0x00, 0x00];
    let mut pos = 0u64;
    assert!(matches!(read_infinint(&data[..], &mut pos), Err(DarError::Corrupt(_))));
    assert_eq!(pos, 1);
}

#[test]
fn infinint_short_body_consumes_only_the_terminal() {
    let data = [0x80u8, 0x00];
    let mut pos = 0u64;
    assert!(matches!(read_infinint(&data[..], &mut pos), Err(DarError::Io(_))));
    assert_eq!(pos, 1);
}

#[test]
fn infinint_at_end_leaves_position() {
    let data = [0x80u8, 0x00, 0x00, 0x00, 0x07];
    let mut pos = 5u64;
    assert!(matches!(read_infinint(&data[..], &mut pos), Err(DarError::Io(_))));
    assert_eq!(pos, 5);
}

// ── read_u8 ───────────────────────────────────────────────────────────────────

#[test]
fn lib_read_u8_reads_single_byte() {
    let mut pos = 0u64;
    assert_eq!(read_u8(&[0x42u8][..], &mut pos).unwrap(), 0x42);
}

#[test]
fn lib_read_u8_eof_returns_io() {
    let mut pos = 0u64;
    let err = read_u8(&[][..], &mut pos).unwrap_err();
    assert!(matches!(err, DarError::Io(_)));
}

// ── read_nul_bytes ────────────────────────────────────────────────────────────

#[test]
fn nul_bytes_reads_until_nul() {
    let data = b"hello\x00world";
    let mut pos = 0u64;
    assert_eq!(read_nul_bytes(&data[..], &mut pos).unwrap(), b"hello");
}

#[test]
fn nul_bytes_preserves_non_utf8() {
    // Raw bytes are kept verbatim — a non-UTF-8 name must NOT be rejected.
    let data = [0xFF, 0x80, 0x00];
    let mut pos = 0u64;
    assert_eq!(read_nul_bytes(&data[..], &mut pos).unwrap(), vec![0xFF, 0x80]);
}

#[test]
fn nul_bytes_eof_before_nul_returns_io() {
    let mut pos = 0u64;
    let err = read_nul_bytes(b"no-nul", &mut pos).unwrap_err();
    assert!(matches!(err, DarError::Io(_)));
}

// ── skip_nul_string ───────────────────────────────────────────────────────────

#[test]
fn lib_skip_nul_string_advances_past_nul() {
    let data = b"skip\x00rest";
    let mut pos = 0u64;
    skip_nul_string(data, &mut pos).unwrap();
    assert_eq!(pos, 5); // "skip\0" = 5 bytes consumed
}

#[test]
fn lib_skip_nul_string_eof_returns_io() {
    let mut pos = 0u64;
    let err = skip_nul_string(b"no-nul", &mut pos).unwrap_err();
    assert!(matches!(err, DarError::Io(_)));
}

// ── find_catalogue ────────────────────────────────────────────────────────────

#[test]
fn lib_find_catalogue_body_too_short() {
    // Fewer than 6 bytes — can't fill the initial window; label also too short.
    let label = [0u8; 10];
    let err = find_catalogue(&[0x01u8, 0x02, 0x03][..], 0, &label).unwrap_err();
    assert!(
        matches!(&err, DarError::Corrupt(s) if s == "archive body too short"
        || s == "seqt_catalogue not found")
    );
}

#[test]
fn lib_find_catalogue_escape_at_start() {
    let data = [0xAD, 0xFD, 0xEA, 0x77, 0x21, 0x43, 0xFF];
    let (via_escape, pos) = find_catalogue(&data[..], 0, &[0u8; 10]).unwrap();
    assert!(via_escape);
    assert_eq!(pos, 6);
}

#[test]
fn lib_find_catalogue_escape_not_found() {
    // 10 bytes of zeros, label is 0xFF×10 so label scan also fails.
    let label = [0xFFu8; 10];
    let err = find_catalogue(&[0u8; 10][..], 0, &label).unwrap_err();
    assert!(matches!(&err, DarError::Corrupt(s) if s == "seqt_catalogue not found"));
}

#[test]
fn lib_find_catalogue_label_fallback() {
    let label: [u8; 10] = [0xA1, 0xB2, 0xC3, 0xD4, 0xE5, 0xF6, 0x07, 0x18, 0x29, 0x3A];
    // Prefix junk (no escape) followed by the label bytes.
    let mut data = vec![0x00u8; 5];
    data.extend_from_slice(&label);
    let (via_escape, pos) = find_catalogue(&data, 0, &label).unwrap();
    assert!(!via_escape);
    assert_eq!(pos, 15); // 5 junk + 10 label consumed
}

// ── skip ──────────────────────────────────────────────────────────────────────

#[test]
fn lib_skip_zero_does_not_move_cursor() {
    let mut pos = 0u64;
    skip(&mut pos, 0).unwrap();
    assert_eq!(pos, 0);
}

#[test]
fn lib_skip_n_advances_cursor() {
    let mut pos = 0u64;
    skip(&mut pos, 7).unwrap();
    assert_eq!(pos, 7);
}

// ── read_inode_base ───────────────────────────────────────────────────────────

#[test]
fn lib_inode_base_bit4_clear_reads_31_bytes() {
    // flags(1) + uid(5) + gid(5) + perms(2) + 3×[type(1)+secs(5)] = 31 bytes
    let mut data = vec![0x00u8]; // flags (bit4=0)
    data.extend_from_slice(&[0x80, 0x00, 0x00, 0x00, 0x00]); // uid
    data.extend_from_slice(&[0x80, 0x00, 0x00, 0x00, 0x00]); // gid
    data.extend_from_slice(&[0x00, 0x00]); // perms
    for _ in 0..3 {
        data.push(b's'); // timestamp type
        data.extend_from_slice(&[0x80, 0x00, 0x00, 0x00, 0x00]); // seconds
    }
    data.push(0xFF); // sentinel — must not be consumed
    let mut pos = 0u64;
    assert_eq!(read_inode_base(&data, &mut pos, 11).unwrap().flags, 0x00);
    assert_eq!(pos, 31);
}

#[test]
fn lib_inode_base_bit4_set_reads_41_bytes() {
    // flags(1) + uid(5) + gid(5) + perms(2) + 3×[type(1)+secs(5)] + nlink(5) + field9(5) = 41
    let mut data = vec![0x10u8]; // flags (bit4=1)
    data.extend_from_slice(&[0x80, 0x00, 0x00, 0x00, 0x00]); // uid
    data.extend_from_slice(&[0x80, 0x00, 0x00, 0x00, 0x00]); // gid
    data.extend_from_slice(&[0x00, 0x00]); // perms
    for _ in 0..3 {
        data.push(b's');
        data.extend_from_slice(&[0x80, 0x00, 0x00, 0x00, 0x00]);
    }
    data.extend_from_slice(&[0x80, 0x00, 0x00, 0x00, 0x00]); // nlink
    data.extend_from_slice(&[0x80, 0x00, 0x00, 0x00, 0x00]); // field9
    data.push(0xFF); // sentinel
    let mut pos = 0u64;
    assert_eq!(read_inode_base(&data, &mut pos, 11).unwrap().flags, 0x10);
    assert_eq!(pos, 41);
}

// ── skip_fsa ──────────────────────────────────────────────────────────────────

#[test]
fn lib_skip_fsa_consumes_tag_size_and_data() {
    // tag=infinint(5) + size=infinint(3) + 3 data bytes
    let mut data = Vec::new();
    data.extend_from_slice(&[0x80, 0x00, 0x00, 0x00, 0x05]); // tag
    data.extend_from_slice(&[0x80, 0x00, 0x00, 0x00, 0x03]); // size=3
    data.extend_from_slice(&[0xAA, 0xBB, 0xCC]); // data
    data.push(0xFF); // sentinel
    let mut pos = 0u64;
    skip_fsa(&data, &mut pos).unwrap();
    assert_eq!(pos, 13); // 5 + 5 + 3 = 13
}

// ── hardening: malicious / corrupted infinint encodings ───────────────────────

#[test]
fn lib_infinint_leading_zero_byte_returns_corrupt() {
    // A leading 0x00 skip-byte implies a ≥36-byte group — far beyond u64.
    let data = [0x00u8, 0x80, 0x00, 0x00, 0x00, 0x00];
    let err = infinint(&data[..]).unwrap_err();
    assert!(matches!(err, DarError::Corrupt(_)), "got {err:?}");
}

#[test]
fn lib_infinint_12_byte_group_exceeds_u64_returns_corrupt() {
    // 0x20 terminal → 12 data bytes → cannot fit in u64.
    let mut data = vec![0x20u8];
    data.extend_from_slice(&[0x11; 12]);
    let err = infinint(&data).unwrap_err();
    assert!(matches!(err, DarError::Corrupt(_)), "got {err:?}");
}

#[test]
fn lib_infinint_all_zero_run_returns_corrupt_without_hanging() {
    let data = vec![0u8; 4096];
    let err = infinint(&data).unwrap_err();
    assert!(matches!(err, DarError::Corrupt(_)), "got {err:?}");
}

// ── hardening: unbounded NUL-terminated strings ───────────────────────────────

#[test]
fn nul_bytes_without_terminator_is_length_bounded() {
    // No NUL in 200 KiB of data: rejected once the path cap is hit.
    let data = vec![b'A'; 200_000];
    let mut pos = 0u64;
    let err = read_nul_bytes(&data, &mut pos).unwrap_err();
    assert!(matches!(err, DarError::Corrupt(_)), "got {err:?}");
}

#[test]
fn lib_skip_nul_string_without_terminator_is_length_bounded() {
    let data = vec![b'A'; 200_000];
    let mut pos = 0u64;
    let err = skip_nul_string(&data, &mut pos).unwrap_err();
    assert!(matches!(err, DarError::Corrupt(_)), "got {err:?}");
}

// ── hardening: skip must never seek backwards ─────────────────────────────────

#[test]
fn lib_skip_value_above_i64_max_returns_corrupt() {
    let mut pos = 32u64;
    let err = skip(&mut pos, 0x8000_0000_0000_0000).unwrap_err();
    assert!(matches!(err, DarError::Corrupt(_)), "got {err:?}");
    assert_eq!(pos, 32); // unchanged on a rejected skip
}

// ── terminateur trailer (pre-8 catalogue locator) ─────────────────────────────

#[test]
fn lib_terminateur_reads_catalogue_offset() {
    // pos infinint 0x18 = 24; terminator 0xc0 → two leading ones → 8 bytes back.
    let data = vec![0x80u8, 0x00, 0x00, 0x00, 0x18, 0x00, 0x00, 0x00, 0xc0];
    assert_eq!(read_terminateur(&data).unwrap(), 24);
}

#[test]
fn lib_terminateur_all_ff_underflows_returns_corrupt() {
    let err = read_terminateur(&[0xFFu8; 4]).unwrap_err();
    assert!(matches!(err, DarError::Corrupt(_)), "got {err:?}");
}

#[test]
fn lib_terminateur_excessive_ff_padding_returns_corrupt() {
    let err = read_terminateur(&[0xFFu8; 600]).unwrap_err();
    assert!(matches!(err, DarError::Corrupt(_)), "got {err:?}");
}

#[test]
fn lib_terminateur_low_terminator_byte_returns_corrupt() {
    // Terminator byte 0x01 has no top bit set.
    let data = vec![0x80u8, 0x00, 0x00, 0x00, 0x18, 0x01];
    let err = read_terminateur(&data).unwrap_err();
    assert!(matches!(err, DarError::Corrupt(_)), "got {err:?}");
}

#[test]
fn lib_terminateur_noncontiguous_high_bits_returns_corrupt() {
    // 0xA0 = 1010_0000: top bit set but the high-bit run is not contiguous.
    let data = vec![0x80u8, 0x00, 0x00, 0x00, 0x18, 0xA0];
    let err = read_terminateur(&data).unwrap_err();
    assert!(matches!(err, DarError::Corrupt(_)), "got {err:?}");
}

// ── find_catalogue: full-scan fallback + body-too-short ───────────────────────

#[test]
fn lib_find_catalogue_falls_back_to_full_scan() {
    // Escape near the start; a tiny tail window misses it.
    let mut data = vec![0x11u8, 0x22]; // junk before the escape
    data.extend_from_slice(&SEQT_CATALOGUE);
    data.extend_from_slice(&[0x33u8; 12]); // trailing bytes beyond the tail window
    let (via_escape, pos) = find_catalogue_within(&data, 0, &[0u8; 10], 4).unwrap();
    assert!(via_escape);
    assert_eq!(pos, 2 + SEQT_CATALOGUE.len() as u64);
}

#[test]
fn lib_find_catalogue_full_scan_miss_returns_not_found() {
    let data = vec![0x11u8; 16];
    let err = find_catalogue_within(&data, 0, &[0xABu8; 10], 4).unwrap_err();
    assert!(matches!(&err, DarError::Corrupt(s) if s == "seqt_catalogue not found"));
}

#[test]
fn lib_find_catalogue_body_too_short_when_origin_at_eof() {
    let data = vec![0u8; 6];
    let err = find_catalogue(&data, 6, &[0u8; 10]).unwrap_err();
    assert!(matches!(&err, DarError::Corrupt(s) if s == "archive body too short"));
}

// ── decode_stream ─────────────────────────────────────────────────────────────

#[test]
fn decode_stream_caps_decompression_bomb() {
    let mut enc = ZlibEncoder::new(Vec::new(), Compression::default());
    enc.write_all(&[0u8; 4096]).unwrap();
    let blob = enc.finish().unwrap();
    // Inflates to 4096 bytes but the bound is 16.
    let err = decode_stream(&blob[..], b'z', 16).unwrap_err();
    assert!(matches!(&err, DarError::Corrupt(s) if s.contains("exceeds bound")));
}

#[test]
fn decode_stream_rejects_malformed_zlib() {
    let err = decode_stream(b"not a zlib stream at all".as_slice(), b'z', u64::MAX).unwrap_err();
    assert!(matches!(&err, DarError::Corrupt(s) if s.contains("zlib decode failed")));
}

#[test]
fn decode_stream_rejects_malformed_bzip2() {
    let err = decode_stream(b"not a bzip2 stream".as_slice(), b'y', u64::MAX).unwrap_err();
    assert!(matches!(&err, DarError::Corrupt(s) if s.contains("bzip2 decode failed")));
}

#[test]
fn decode_stream_rejects_malformed_xz() {
    let err = decode_stream(b"this is not an xz stream".as_slice(), b'x', u64::MAX).unwrap_err();
    assert!(matches!(&err, DarError::Corrupt(s) if s.contains("xz decode failed")));
}
