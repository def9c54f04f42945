use cats::deserializing::CatDeserializable;
use cats::error::{CatError, ErrorType};
use cats::metadata::{Compression, Entry, Header};
use cats::serializing::CatSerializable;
use cats::unpacking::unpack;
use cats::utils::{
    decimal_string, read_string, read_u16, read_u32, read_u8, validate_name, wrap_context,
    write_string, write_u16, write_u32, EvalContext, MetaErrorKind,
};

fn ctx() -> EvalContext {
    EvalContext::new("test".to_string())
}

#[test]
fn wrong_magic_fails_with_invalid_file_type() {
    let err = unpack(b"DOGS\x01\x00\x00").unwrap_err();
    assert!(matches!(err.error_type, ErrorType::InvalidFileType));
    assert_eq!(err.exit_code(), -1);
}

#[test]
fn short_input_fails_with_invalid_file_type() {
    let err = unpack(b"CA").unwrap_err();
    assert!(matches!(err.error_type, ErrorType::InvalidFileType));
}

#[test]
fn wrong_version_fails_before_entries_are_read() {
    // version 2, followed by bytes that would be a malformed entry list:
    // the version gate must fire first
    let err = unpack(b"CATS\x02\x00\x01\x07").unwrap_err();
    assert!(matches!(err.error_type, ErrorType::UnknownVersion));
    assert_eq!(err.exit_code(), 1);
}

#[test]
fn unknown_entry_tag_reports_the_raw_byte() {
    let err = unpack(b"CATS\x01\x00\x01\x07").unwrap_err();
    match &err.error_type {
        ErrorType::InvalidEntryType(context, byte) => {
            assert_eq!(*byte, 7);
            assert_eq!(context.render(), "header/0");
        }
        other => panic!("unexpected error {:?}", other),
    }
    assert_eq!(err.exit_code(), 102);
    assert_eq!(err.render(), "Invalid entry type 7 at 'header/0'");
}

#[test]
fn invalid_compression_byte_is_a_typed_error() {
    let mut archive: Vec<u8> = Vec::new();
    archive.extend_from_slice(b"CATS");
    archive.push(1);
    archive.extend_from_slice(&[0, 1]);
    archive.push(0); // file tag
    archive.push(1);
    archive.push(b'f');
    archive.extend_from_slice(&[0, 0, 0, 0]);
    archive.extend_from_slice(&[0, 0, 0, 0]);
    archive.push(0x00); // not a valid compression sentinel
    let err = unpack(archive.as_slice()).unwrap_err();
    assert!(matches!(err.error_type, ErrorType::InvalidEntryData(_)));
    assert_eq!(err.exit_code(), 101);
}

#[test]
fn out_of_range_slice_is_a_typed_error() {
    let mut archive: Vec<u8> = Vec::new();
    archive.extend_from_slice(b"CATS");
    archive.push(1);
    archive.extend_from_slice(&[0, 1]);
    archive.push(0); // file tag
    archive.push(1);
    archive.push(b'f');
    archive.extend_from_slice(&[0, 0, 0, 100]); // offset past the region
    archive.extend_from_slice(&[0, 0, 0, 5]);
    archive.push(0xFF);
    // data region is empty
    let err = unpack(archive.as_slice()).unwrap_err();
    assert!(matches!(err.error_type, ErrorType::InvalidEntryData(_)));
}

#[test]
fn corrupt_gzip_blob_is_a_typed_error() {
    let mut archive: Vec<u8> = Vec::new();
    archive.extend_from_slice(b"CATS");
    archive.push(1);
    archive.extend_from_slice(&[0, 1]);
    archive.push(0);
    archive.push(1);
    archive.push(b'f');
    archive.extend_from_slice(&[0, 0, 0, 0]);
    archive.extend_from_slice(&[0, 0, 0, 2]);
    archive.push(0xFE); // claims gzip
    archive.extend_from_slice(b"hi"); // but the bytes are no gzip stream
    let err = unpack(archive.as_slice()).unwrap_err();
    assert!(matches!(err.error_type, ErrorType::InvalidEntryData(_)));
}

#[test]
fn deep_corruption_renders_the_full_context_path() {
    // header -> entry 0 -> directory "a" -> directory "b" -> file "f",
    // truncated right before the file's offset field
    let mut archive: Vec<u8> = Vec::new();
    archive.extend_from_slice(b"CATS");
    archive.push(1);
    archive.extend_from_slice(&[0, 1]);
    archive.push(1); // directory tag
    archive.push(1);
    archive.push(b'a');
    archive.extend_from_slice(&[0, 1]);
    archive.push(1); // directory tag
    archive.push(1);
    archive.push(b'b');
    archive.extend_from_slice(&[0, 1]);
    archive.push(0); // file tag
    archive.push(1);
    archive.push(b'f');
    // offset, size, compression missing: a short read inside the offset field
    let err = unpack(archive.as_slice()).unwrap_err();
    match &err.error_type {
        ErrorType::ErrorReadingMetadata(context, message) => {
            assert_eq!(context.render(), "header/0/a/b/offset");
            assert_eq!(message, "unexpected end of data");
        }
        other => panic!("unexpected error {:?}", other),
    }
    assert_eq!(
        err.render(),
        "Failed to read metadata for 'header/0/a/b/offset' reason: unexpected end of data"
    );
    assert_eq!(err.exit_code(), 204);
}

#[test]
fn truncated_header_fails_with_reading_metadata() {
    let err = unpack(b"CATS\x01\x00").unwrap_err();
    match &err.error_type {
        ErrorType::ErrorReadingMetadata(context, _) => {
            assert_eq!(context.render(), "header/entries length");
        }
        other => panic!("unexpected error {:?}", other),
    }
}

#[test]
fn integer_codecs_round_trip() {
    let mut buffer: Vec<u8> = Vec::new();
    write_u16(0xBEEF, &mut buffer);
    write_u32(0xDEADBEEF, &mut buffer);
    assert_eq!(buffer, vec![0xBE, 0xEF, 0xDE, 0xAD, 0xBE, 0xEF]);
    let mut pos: usize = 0;
    assert_eq!(read_u16(buffer.as_slice(), &mut pos).unwrap(), 0xBEEF);
    assert_eq!(read_u32(buffer.as_slice(), &mut pos).unwrap(), 0xDEADBEEF);
    assert_eq!(pos, 6);
    assert!(read_u8(buffer.as_slice(), &mut pos).is_err());
}

#[test]
fn string_codec_round_trips_and_caps_length() {
    let mut buffer: Vec<u8> = Vec::new();
    write_string(&"meow".to_string(), &mut buffer).unwrap();
    assert_eq!(buffer, vec![4, b'm', b'e', b'o', b'w']);
    let mut pos: usize = 0;
    let back = read_string(buffer.as_slice(), &mut pos).unwrap();
    assert_eq!(back, "meow");
    assert_eq!(pos, 5);

    let long: String = std::iter::repeat('x').take(256).collect();
    let mut other: Vec<u8> = Vec::new();
    assert!(write_string(&long, &mut other).is_err());
    assert!(other.is_empty());
}

#[test]
fn lossy_string_decoding_replaces_invalid_bytes() {
    let bytes = [2u8, 0xFF, 0xFE];
    let mut pos: usize = 0;
    let s = read_string(&bytes, &mut pos).unwrap();
    assert_eq!(s, "\u{fffd}\u{fffd}");
}

#[test]
fn compression_byte_encoding() {
    let mut buffer: Vec<u8> = Vec::new();
    Compression::Gzip.serialize(&mut buffer, &ctx()).unwrap();
    Compression::Uncompressed.serialize(&mut buffer, &ctx()).unwrap();
    assert_eq!(buffer, vec![0xFE, 0xFF]);
    let mut pos: usize = 0;
    assert!(matches!(
        Compression::deserialize(buffer.as_slice(), &mut pos, &ctx()).unwrap(),
        Compression::Gzip
    ));
    assert!(matches!(
        Compression::deserialize(buffer.as_slice(), &mut pos, &ctx()).unwrap(),
        Compression::Uncompressed
    ));
}

#[test]
fn header_serialize_rejects_too_many_entries() {
    let mut entries: Vec<Entry> = Vec::new();
    for _ in 0..65536 {
        entries.push(Entry::File {
            name: "f".to_string(),
            offset: 0,
            size: 0,
            compression: Compression::Uncompressed,
        });
    }
    let header = Header { version: 1, entries };
    let mut buffer: Vec<u8> = Vec::new();
    let err = header.serialize(&mut buffer, &ctx()).unwrap_err();
    assert!(matches!(err.error_type, ErrorType::ErrorWritingMetadata(_, _)));
    assert_eq!(err.exit_code(), 203);
}

#[test]
fn entry_round_trips_through_the_codec() {
    let entry = Entry::Directory {
        name: "d".to_string(),
        entries: vec![
            Entry::File {
                name: "f".to_string(),
                offset: 7,
                size: 9,
                compression: Compression::Gzip,
            },
            Entry::Directory { name: "e".to_string(), entries: vec![] },
        ],
    };
    let mut buffer: Vec<u8> = Vec::new();
    entry.serialize(&mut buffer, &ctx()).unwrap();
    let mut pos: usize = 0;
    let back = Entry::deserialize(buffer.as_slice(), &mut pos, &ctx()).unwrap();
    assert_eq!(pos, buffer.len());
    match back {
        Entry::Directory { name, entries } => {
            assert_eq!(name, "d");
            assert_eq!(entries.len(), 2);
            match &entries[0] {
                Entry::File { name, offset, size, compression } => {
                    assert_eq!(name, "f");
                    assert_eq!(*offset, 7);
                    assert_eq!(*size, 9);
                    assert!(matches!(compression, Compression::Gzip));
                }
                _ => panic!("expected a file"),
            }
            assert!(matches!(&entries[1], Entry::Directory { entries, .. } if entries.is_empty()));
        }
        _ => panic!("expected a directory"),
    }
}

#[test]
fn eval_context_renders_root_to_leaf() {
    let root = EvalContext::new("header".to_string());
    let deeper = root.push("sub".to_string()).push("file name".to_string());
    assert_eq!(root.render(), "header");
    assert_eq!(deeper.render(), "header/sub/file name");
    // the receiver is untouched by push
    assert_eq!(root.render(), "header");
}

#[test]
fn decimal_rendering() {
    assert_eq!(decimal_string(0), "0");
    assert_eq!(decimal_string(7), "7");
    assert_eq!(decimal_string(42), "42");
    assert_eq!(decimal_string(65535), "65535");
}

#[test]
fn wrap_context_builds_the_selected_error() {
    let ok: Result<u8, String> = Ok(3);
    assert_eq!(wrap_context(ok, ctx(), MetaErrorKind::ReadingMetadata).unwrap(), 3);
    let failed: Result<u8, String> = Err("boom".to_string());
    let err = wrap_context(failed, ctx(), MetaErrorKind::CompressData).unwrap_err();
    match &err.error_type {
        ErrorType::FailedToCompressData(context, message) => {
            assert_eq!(context.render(), "test");
            assert_eq!(message, "boom");
        }
        other => panic!("unexpected error {:?}", other),
    }
    assert_eq!(err.exit_code(), -2);
}

#[test]
fn exit_codes_cover_the_whole_taxonomy() {
    let c = || ctx();
    let s = || "p".to_string();
    let cases: Vec<(CatError, i32)> = vec![
        (ErrorType::UnknownArg.new(), -1),
        (ErrorType::InvalidInput(s()).new(), -1),
        (ErrorType::FailedToOpenInput { path: s(), error: s() }.new(), -1),
        (ErrorType::InvalidFileType.new(), -1),
        (ErrorType::UnknownVersion.new(), 1),
        (ErrorType::InvalidMetadata(c()).new(), 2),
        (ErrorType::FailedToCompressData(c(), s()).new(), -2),
        (ErrorType::InvalidEntryName(c()).new(), 100),
        (ErrorType::InvalidEntryData(c()).new(), 101),
        (ErrorType::InvalidEntryType(c(), 9).new(), 102),
        (ErrorType::UnableToCreateDirectory(s()).new(), 200),
        (ErrorType::ErrorWritingFile { path: s(), error: s() }.new(), 201),
        (ErrorType::ErrorReadingFile { path: s(), error: s() }.new(), 202),
        (ErrorType::ErrorWritingMetadata(c(), s()).new(), 203),
        (ErrorType::ErrorReadingMetadata(c(), s()).new(), 204),
    ];
    for (error, code) in cases {
        assert_eq!(error.exit_code(), code);
    }
}

#[test]
fn error_rendering_exact_messages() {
    assert_eq!(ErrorType::UnknownArg.render(), "Unknown Argument");
    assert_eq!(ErrorType::InvalidFileType.render(), "Invalid filetype");
    assert_eq!(ErrorType::UnknownVersion.render(), "Unknown Version");
    assert_eq!(
        ErrorType::InvalidInput("in.cats".to_string()).render(),
        "Invalid input path 'in.cats'"
    );
    assert_eq!(
        ErrorType::InvalidEntryName(ctx().push("leaf".to_string())).render(),
        "Invalid filename at 'test/leaf'"
    );
    assert_eq!(
        ErrorType::ErrorWritingFile { path: "out".to_string(), error: "full".to_string() }
            .render(),
        "Failed to write 'out' reason: full"
    );
    assert_eq!(
        ErrorType::UnableToCreateDirectory("d".to_string()).render(),
        "Unable to create directory 'd'"
    );
    assert_eq!(
        ErrorType::InvalidMetadata(ctx()).render(),
        "Invalid Metadata at 'test'"
    );
    assert_eq!(
        ErrorType::InvalidEntryData(ctx()).render(),
        "Invalid entry data at 'test'"
    );
    assert_eq!(
        ErrorType::FailedToOpenInput { path: "a".to_string(), error: "b".to_string() }.render(),
        "Failed to read 'a' reason: b"
    );
    assert_eq!(
        ErrorType::ErrorReadingFile { path: "a".to_string(), error: "b".to_string() }.render(),
        "Failed to read 'a' reason: b"
    );
    assert_eq!(
        ErrorType::ErrorWritingMetadata(ctx(), "m".to_string()).render(),
        "Failed to write metadata for 'test' reason: m"
    );
    assert_eq!(
        ErrorType::FailedToCompressData(ctx(), "m".to_string()).render(),
        "Failed to compress data for 'test' reason: m"
    );
}

#[test]
fn validate_name_returns_the_name_unchanged() {
    let name = validate_name("keep.me".to_string(), &ctx()).unwrap();
    assert_eq!(name, "keep.me");
}
