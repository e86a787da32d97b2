use hyctl::protobuf::{
    read_bytes, read_framed, read_framed_bytes, read_key, read_string, read_varint_at, read_varint_from_slice, skip_field, ProtoError,
};
use hyctl::wharf::{
    check_patch_prelude, final_mode, parse_compression_settings, parse_container, parse_patch_header,
    parse_sync_op, parse_tlc_file, parse_tlc_symlink, plan_patch, plan_payload, ContainerEntry, PatchAction,
    WharfError, PATCH_MAGIC,
};
use std::io::Write;

fn varint(mut v: u64) -> Vec<u8> {
    let mut out = Vec::new();
    loop {
        let b = (v & 0x7f) as u8;
        v >>= 7;
        if v == 0 {
            out.push(b);
            return out;
        }
        out.push(b | 0x80);
    }
}

fn key(field: u64, wire: u64) -> Vec<u8> {
    varint(field << 3 | wire)
}

fn bytes_field(field: u64, payload: &[u8]) -> Vec<u8> {
    let mut out = key(field, 2);
    out.extend(varint(payload.len() as u64));
    out.extend_from_slice(payload);
    out
}

fn varint_field(field: u64, v: u64) -> Vec<u8> {
    let mut out = key(field, 0);
    out.extend(varint(v));
    out
}

fn frame(payload: &[u8]) -> Vec<u8> {
    let mut out = varint(payload.len() as u64);
    out.extend_from_slice(payload);
    out
}

fn tlc_file(path: &str, mode: u64) -> Vec<u8> {
    let mut out = bytes_field(1, path.as_bytes());
    out.extend(varint_field(2, mode));
    out
}

fn tlc_symlink(path: &str, dest: &str) -> Vec<u8> {
    let mut out = bytes_field(1, path.as_bytes());
    out.extend(bytes_field(3, dest.as_bytes()));
    out
}

fn sync_op(op: u64, data: &[u8]) -> Vec<u8> {
    let mut out = varint_field(1, op);
    if !data.is_empty() {
        out.extend(bytes_field(5, data));
    }
    out
}

fn header(algorithm: u64) -> Vec<u8> {
    bytes_field(1, &varint_field(1, algorithm))
}

fn brotli_compress(data: &[u8]) -> Vec<u8> {
    let mut out = Vec::new();
    {
        let mut w = brotli::CompressorWriter::new(&mut out, 4096, 5, 22);
        w.write_all(data).unwrap();
    }
    out
}

fn patch_file(algorithm: u64, payload: &[u8]) -> Vec<u8> {
    let mut out = PATCH_MAGIC.to_le_bytes().to_vec();
    out.extend(frame(&header(algorithm)));
    out.extend(payload);
    out
}

/// A payload with a directory, a file of two data chunks, a symlink, a
/// symlink with an empty target and an executable script.
fn sample_payload() -> Vec<u8> {
    let mut container = Vec::new();
    container.extend(bytes_field(2, &tlc_file("bin", 0o755)));
    container.extend(bytes_field(1, &tlc_file("bin/data.txt", 0o600)));
    container.extend(bytes_field(3, &tlc_symlink("bin/link", "data.txt")));
    container.extend(bytes_field(3, &tlc_symlink("bin/dangling", "")));
    container.extend(bytes_field(1, &tlc_file("bin/run.sh", 0o644)));
    let mut payload = frame(&[]);
    payload.extend(frame(&container));
    // data.txt
    payload.extend(frame(&[]));
    payload.extend(frame(&sync_op(1, b"hello ")));
    payload.extend(frame(&sync_op(0, b"ignored block range")));
    payload.extend(frame(&sync_op(7, b"unknown op")));
    payload.extend(frame(&sync_op(1, b"world")));
    payload.extend(frame(&sync_op(2049, &[])));
    // run.sh
    payload.extend(frame(&[]));
    payload.extend(frame(&sync_op(1, b"#!/bin/sh\n")));
    payload.extend(frame(&sync_op(2049, &[])));
    payload
}

fn expected_sample_actions() -> Vec<PatchAction> {
    vec![
        PatchAction::CreateDir("bin".to_string()),
        PatchAction::CreateParentDirs("bin/data.txt".to_string()),
        PatchAction::WriteFile { path: "bin/data.txt".to_string(), mode: 0o600, data: b"hello world".to_vec() },
        PatchAction::Symlink { from: "bin/link".to_string(), to: "data.txt".to_string() },
        PatchAction::CreateParentDirs("bin/run.sh".to_string()),
        PatchAction::WriteFile { path: "bin/run.sh".to_string(), mode: 0o755, data: b"#!/bin/sh\n".to_vec() },
    ]
}

#[test]
fn varint_single_byte() {
    let mut pos = 0;
    assert_eq!(read_varint_at(&[0x05], &mut pos), Ok(5));
    assert_eq!(pos, 1);
}

#[test]
fn varint_two_bytes() {
    let mut pos = 0;
    assert_eq!(read_varint_at(&[0xAC, 0x02, 0xFF], &mut pos), Ok(300));
    assert_eq!(pos, 2);
}

#[test]
fn varint_at_offset() {
    let mut pos = 2;
    assert_eq!(read_varint_at(&[0xFF, 0xFF, 0x7F], &mut pos), Ok(127));
    assert_eq!(pos, 3);
}

#[test]
fn varint_max_ten_bytes() {
    let bytes = varint(u64::MAX);
    assert_eq!(bytes.len(), 10);
    let mut pos = 0;
    assert_eq!(read_varint_at(&bytes, &mut pos), Ok(u64::MAX));
    assert_eq!(pos, 10);
}

#[test]
fn varint_tenth_byte_truncated_to_top_bit() {
    // The tenth group only has room for one bit; higher bits are dropped.
    let mut bytes = vec![0x80; 9];
    bytes.push(0x03);
    let mut pos = 0;
    assert_eq!(read_varint_at(&bytes, &mut pos), Ok(1u64 << 63));
}

#[test]
fn varint_too_long() {
    let bytes = vec![0x80; 11];
    let mut pos = 0;
    assert_eq!(read_varint_at(&bytes, &mut pos), Err(ProtoError::VarintTooLong));
    assert_eq!(pos, 10);
}

#[test]
fn varint_unexpected_end() {
    let mut pos = 0;
    assert_eq!(read_varint_at(&[0x80, 0x80], &mut pos), Err(ProtoError::UnexpectedEnd));
    assert_eq!(pos, 2);
    let mut pos = 0;
    assert_eq!(read_varint_at(&[], &mut pos), Err(ProtoError::UnexpectedEnd));
    assert_eq!(pos, 0);
}

#[test]
fn key_splits_field_and_wire() {
    let mut pos = 0;
    assert_eq!(read_key(&key(5, 2), &mut pos), Ok((5, 2)));
    let mut pos = 0;
    assert_eq!(read_key(&key(2049, 0), &mut pos), Ok((2049, 0)));
}

#[test]
fn bytes_field_reads_payload() {
    let data = [3, b'a', b'b', b'c', 9];
    let mut pos = 0;
    assert_eq!(read_bytes(&data, &mut pos), Ok(&b"abc"[..]));
    assert_eq!(pos, 4);
}

#[test]
fn bytes_field_past_end() {
    let data = [5, b'a', b'b'];
    let mut pos = 0;
    assert_eq!(read_bytes(&data, &mut pos), Err(ProtoError::FieldPastEnd));
    assert_eq!(pos, 1);
}

#[test]
fn bytes_field_huge_length_is_past_end() {
    let mut data = varint(u64::MAX);
    data.push(1);
    let mut pos = 0;
    assert_eq!(read_bytes(&data, &mut pos), Err(ProtoError::FieldPastEnd));
}

#[test]
fn string_field_valid_and_invalid() {
    let data = frame("héllo".as_bytes());
    let mut pos = 0;
    assert_eq!(read_string(&data, &mut pos), Ok("héllo".to_string()));
    let bad = frame(&[0xff, 0xfe]);
    let mut pos = 0;
    assert_eq!(read_string(&bad, &mut pos), Err(ProtoError::InvalidUtf8));
    assert_eq!(pos, 3);
}

#[test]
fn skip_each_wire_type() {
    let data = [0x96, 0x01, 0, 0, 0, 0, 0, 0, 0, 0, 0, 0];
    let mut pos = 0;
    assert_eq!(skip_field(&data, &mut pos, 0), Ok(()));
    assert_eq!(pos, 2);
    let mut pos = 0;
    assert_eq!(skip_field(&data, &mut pos, 1), Ok(()));
    assert_eq!(pos, 8);
    let mut pos = 0;
    assert_eq!(skip_field(&data, &mut pos, 5), Ok(()));
    assert_eq!(pos, 4);
    let mut pos = 3;
    assert_eq!(skip_field(&data, &mut pos, 3), Ok(()));
    assert_eq!(pos, 3);
    assert_eq!(skip_field(&data, &mut pos, 4), Ok(()));
    assert_eq!(pos, 3);
    let mut pos = 2;
    assert_eq!(skip_field(&[0, 0, 3, 1, 2, 3, 4], &mut pos, 2), Ok(()));
    assert_eq!(pos, 6);
}

#[test]
fn skip_past_end_stops_at_end() {
    let data = [1, 2, 3];
    let mut pos = 0;
    assert_eq!(skip_field(&data, &mut pos, 1), Ok(()));
    assert_eq!(pos, 3);
    let data = [100, 1];
    let mut pos = 0;
    assert_eq!(skip_field(&data, &mut pos, 2), Ok(()));
    assert_eq!(pos, 2);
}

#[test]
fn skip_unknown_wire_type() {
    let mut pos = 0;
    assert_eq!(skip_field(&[1, 2], &mut pos, 6), Err(ProtoError::UnknownWireType(6)));
    assert_eq!(pos, 0);
}

#[test]
fn framed_bytes_ok_and_too_long() {
    let data = [2, 7, 8, 1, 9];
    let mut pos = 0;
    assert_eq!(read_framed_bytes(&data, &mut pos), Ok(vec![7, 8]));
    assert_eq!(pos, 3);
    assert_eq!(read_framed_bytes(&data, &mut pos), Ok(vec![9]));
    assert_eq!(pos, 5);
    let data = [4, 1, 2];
    let mut pos = 0;
    assert_eq!(read_framed_bytes(&data, &mut pos), Err(ProtoError::FrameTooLong { len: 4, remaining: 2 }));
}

#[test]
fn framed_stream_short_is_unexpected_end() {
    let data = [4, 1, 2];
    let mut pos = 0;
    assert_eq!(read_framed(&data, &mut pos), Err(ProtoError::UnexpectedEnd));
    let mut pos = 0;
    assert_eq!(read_framed(&[2, 1, 2], &mut pos), Ok(vec![1, 2]));
}

#[test]
fn compression_settings_algorithm() {
    assert_eq!(parse_compression_settings(&varint_field(1, 1)), Ok(1));
    assert_eq!(parse_compression_settings(&[]), Ok(0));
    // The last algorithm field wins.
    let mut data = varint_field(1, 1);
    data.extend(varint_field(1, 3));
    assert_eq!(parse_compression_settings(&data), Ok(3));
}

#[test]
fn compression_settings_quality_is_skipped() {
    // The law on unknown fields: a leading quality field changes nothing.
    let rest = varint_field(1, 1);
    let mut data = vec![2 * 8, 9];
    data.extend(&rest);
    assert_eq!(parse_compression_settings(&data), parse_compression_settings(&rest));
    assert_eq!(parse_compression_settings(&data), Ok(1));
}

#[test]
fn compression_settings_error() {
    assert_eq!(parse_compression_settings(&key(1, 6)), Err(ProtoError::UnknownWireType(6)));
    assert_eq!(parse_compression_settings(&[0x08]), Err(ProtoError::UnexpectedEnd));
}

#[test]
fn patch_header_algorithm() {
    assert_eq!(parse_patch_header(&header(1)), Ok(1));
    let mut h = varint_field(2, 5);
    h.extend(header(1));
    assert_eq!(parse_patch_header(&h), Ok(1));
    assert_eq!(parse_patch_header(&[]), Ok(0));
    assert_eq!(parse_patch_header(&bytes_field(1, &key(1, 7))), Err(ProtoError::UnknownWireType(7)));
}

#[test]
fn sync_op_fields() {
    assert_eq!(parse_sync_op(&sync_op(1, b"abc")), Ok((1, b"abc".to_vec())));
    assert_eq!(parse_sync_op(&[]), Ok((0, vec![])));
    let mut op = sync_op(2049, &[]);
    op.extend(varint_field(3, 77));
    assert_eq!(parse_sync_op(&op), Ok((2049, vec![])));
    assert_eq!(parse_sync_op(&[0x2a, 9, 1]), Err(ProtoError::FieldPastEnd));
}

#[test]
fn tlc_file_fields_and_defaults() {
    assert_eq!(parse_tlc_file(&tlc_file("a/b", 0o755)), ("a/b".to_string(), 0o755));
    assert_eq!(parse_tlc_file(&[]), (String::new(), 0o644));
    // Invalid UTF-8 in the path gives an empty path; the mode still reads.
    let mut data = bytes_field(1, &[0xff]);
    data.extend(varint_field(2, 0o700));
    assert_eq!(parse_tlc_file(&data), (String::new(), 0o700));
    // A truncated mode falls back to 0o644.
    let mut data = bytes_field(1, b"x");
    data.extend(&[0x10, 0x80]);
    assert_eq!(parse_tlc_file(&data), ("x".to_string(), 0o644));
    // A key that cannot be read ends the message.
    let mut data = bytes_field(1, b"y");
    data.push(0x80);
    assert_eq!(parse_tlc_file(&data), ("y".to_string(), 0o644));
}

#[test]
fn tlc_symlink_fields() {
    assert_eq!(parse_tlc_symlink(&tlc_symlink("l", "t")), ("l".to_string(), "t".to_string()));
    let mut data = varint_field(2, 0o777);
    data.extend(tlc_symlink("l2", "t2"));
    assert_eq!(parse_tlc_symlink(&data), ("l2".to_string(), "t2".to_string()));
    assert_eq!(parse_tlc_symlink(&[]), (String::new(), String::new()));
}

#[test]
fn container_entries_in_order() {
    let mut data = bytes_field(2, &tlc_file("d", 0o755));
    data.extend(varint_field(9, 1));
    data.extend(bytes_field(1, &tlc_file("d/f", 0x1_0000_01a4)));
    data.extend(bytes_field(3, &tlc_symlink("d/l", "f")));
    let entries = parse_container(&data).unwrap();
    assert_eq!(
        entries,
        vec![
            ContainerEntry::Dir("d".to_string()),
            // The mode is cut to 32 bits.
            ContainerEntry::File { path: "d/f".to_string(), mode: 0o644 },
            ContainerEntry::Symlink { from: "d/l".to_string(), to: "f".to_string() },
        ]
    );
}

#[test]
fn container_error() {
    assert_eq!(parse_container(&[0x0a, 5]), Err(ProtoError::FieldPastEnd));
}

#[test]
fn final_mode_executables() {
    assert_eq!(final_mode(0o644, b"\x7fELF\x02\x01"), 0o755);
    assert_eq!(final_mode(0o600, b"#!/bin/sh"), 0o711);
    assert_eq!(final_mode(0o644, b"plain"), 0o644);
    assert_eq!(final_mode(0o644, b"#"), 0o644);
    assert_eq!(final_mode(0o755, b"\x7fEL"), 0o755);
}

#[test]
fn final_mode_keeps_bits() {
    for mode in [0u32, 0o600, 0o644, 0o4755, 0o777] {
        for data in [&b"\x7fELF"[..], b"#!", b"", b"text"] {
            let m = final_mode(mode, data);
            assert_eq!(m & mode, mode);
        }
    }
}

#[test]
fn payload_plan_exact() {
    let plan = plan_payload(&sample_payload());
    assert_eq!(plan.error, None);
    assert_eq!(plan.actions, expected_sample_actions());
}

#[test]
fn plan_writes_follow_parent_creation() {
    let plan = plan_payload(&sample_payload());
    for (j, a) in plan.actions.iter().enumerate() {
        if let PatchAction::WriteFile { path, .. } = a {
            assert!(j > 0);
            assert_eq!(plan.actions[j - 1], PatchAction::CreateParentDirs(path.clone()));
        }
    }
}

#[test]
fn whole_patch_plan_with_brotli() {
    let payload = sample_payload();
    let compressed = brotli_compress(&payload);
    assert_ne!(compressed, payload);
    let plan = plan_patch(&patch_file(1, &compressed));
    assert_eq!(plan.error, None);
    assert_eq!(plan.actions, expected_sample_actions());
}

#[test]
fn prelude_gives_payload_offset() {
    let file = patch_file(1, &[1, 2, 3]);
    assert_eq!(check_patch_prelude(&file), Ok(file.len() - 3));
}

#[test]
fn patch_missing_magic() {
    let plan = plan_patch(&[0x00, 0x5f, 0xef]);
    assert_eq!(plan.error, Some(WharfError::MissingMagic));
    assert!(plan.actions.is_empty());
}

#[test]
fn patch_bad_magic() {
    let plan = plan_patch(&[1, 2, 3, 4, 0]);
    assert_eq!(plan.error, Some(WharfError::BadMagic(0x04030201)));
}

#[test]
fn patch_header_frame_error() {
    let mut file = PATCH_MAGIC.to_le_bytes().to_vec();
    file.push(10);
    file.push(1);
    assert_eq!(plan_patch(&file).error, Some(WharfError::HeaderFrame(ProtoError::UnexpectedEnd)));
}

#[test]
fn patch_header_parse_error() {
    let mut file = PATCH_MAGIC.to_le_bytes().to_vec();
    file.extend(frame(&key(3, 6)));
    assert_eq!(plan_patch(&file).error, Some(WharfError::HeaderParse(ProtoError::UnknownWireType(6))));
}

#[test]
fn patch_unsupported_compression() {
    let plan = plan_patch(&patch_file(2, &[]));
    assert_eq!(plan.error, Some(WharfError::UnsupportedCompression(2)));
    let plan = plan_patch(&patch_file(0, &[]));
    assert_eq!(plan.error, Some(WharfError::UnsupportedCompression(0)));
}

#[test]
fn patch_decompress_error() {
    let plan = plan_patch(&patch_file(1, &[0xff, 0xff, 0xff, 0xff, 0x01]));
    assert_eq!(plan.error, Some(WharfError::Decompress));
}

#[test]
fn payload_target_container_error() {
    assert_eq!(plan_payload(&[]).error, Some(WharfError::TargetContainer(ProtoError::UnexpectedEnd)));
    assert_eq!(
        plan_payload(&[3, 1]).error,
        Some(WharfError::TargetContainer(ProtoError::FrameTooLong { len: 3, remaining: 1 }))
    );
}

#[test]
fn payload_source_container_error() {
    assert_eq!(plan_payload(&[0]).error, Some(WharfError::SourceContainer(ProtoError::UnexpectedEnd)));
}

#[test]
fn payload_container_parse_error() {
    let mut payload = frame(&[]);
    payload.extend(frame(&key(1, 6)));
    assert_eq!(plan_payload(&payload).error, Some(WharfError::ContainerParse(ProtoError::UnknownWireType(6))));
}

#[test]
fn payload_sync_header_error() {
    let mut container = bytes_field(2, &tlc_file("d", 0o755));
    container.extend(bytes_field(1, &tlc_file("d/f", 0o644)));
    let mut payload = frame(&[]);
    payload.extend(frame(&container));
    let plan = plan_payload(&payload);
    assert_eq!(
        plan.error,
        Some(WharfError::SyncHeader { index: 1, path: "d/f".to_string(), error: ProtoError::UnexpectedEnd })
    );
    assert_eq!(
        plan.actions,
        vec![PatchAction::CreateDir("d".to_string()), PatchAction::CreateParentDirs("d/f".to_string())]
    );
}

#[test]
fn payload_sync_op_frame_error() {
    let mut payload = frame(&[]);
    payload.extend(frame(&bytes_field(1, &tlc_file("f", 0o644))));
    payload.extend(frame(&[]));
    payload.extend(frame(&sync_op(1, b"partial")));
    let plan = plan_payload(&payload);
    assert_eq!(
        plan.error,
        Some(WharfError::SyncOpFrame { index: 0, path: "f".to_string(), error: ProtoError::UnexpectedEnd })
    );
    assert_eq!(plan.actions, vec![PatchAction::CreateParentDirs("f".to_string())]);
}

#[test]
fn payload_sync_op_parse_error() {
    let mut payload = frame(&[]);
    payload.extend(frame(&bytes_field(1, &tlc_file("f", 0o644))));
    payload.extend(frame(&[]));
    payload.extend(frame(&key(1, 6)));
    let plan = plan_payload(&payload);
    assert_eq!(plan.error, Some(WharfError::SyncOp(ProtoError::UnknownWireType(6))));
}

#[test]
fn payload_empty_container() {
    let mut payload = frame(&[]);
    payload.extend(frame(&[]));
    let plan = plan_payload(&payload);
    assert_eq!(plan.error, None);
    assert!(plan.actions.is_empty());
}

#[test]
fn varint_from_slice_moves_the_slice() {
    let bytes = [0xAC, 0x02, 0x07, 0x09];
    let mut rest: &[u8] = &bytes;
    assert_eq!(read_varint_from_slice(&mut rest), Ok(300));
    assert_eq!(rest, &[0x07, 0x09]);
    assert_eq!(read_varint_from_slice(&mut rest), Ok(7));
    assert_eq!(rest, &[0x09]);
}

#[test]
fn varint_from_slice_fails_at_the_end() {
    let bytes = [0x80, 0x80];
    let mut rest: &[u8] = &bytes;
    assert_eq!(read_varint_from_slice(&mut rest), Err(ProtoError::UnexpectedEnd));
    assert!(rest.is_empty());
    let mut empty: &[u8] = &[];
    assert_eq!(read_varint_from_slice(&mut empty), Err(ProtoError::UnexpectedEnd));
}

#[test]
fn varint_round_trip_leaves_the_rest() {
    for v in [0u64, 1, 127, 128, 300, 16_383, 16_384, 1 << 35, u64::MAX - 1, u64::MAX] {
        let mut data = varint(v);
        let n = data.len();
        assert!((1..=10).contains(&n));
        data.extend_from_slice(&[0xAA, 0x01]);
        let mut rest: &[u8] = &data;
        assert_eq!(read_varint_from_slice(&mut rest), Ok(v));
        assert_eq!(rest, &[0xAA, 0x01]);
        let mut pos = 0usize;
        assert_eq!(read_varint_at(&data, &mut pos), Ok(v));
        assert_eq!(pos, n);
    }
}
