use cats::error::ErrorType;
use cats::metadata::FsNode;
use cats::packing::pack;
use cats::unpacking::unpack;
use cats::utils::{validate_name, EvalContext};
use cats::Context;

fn ctx() -> EvalContext {
    EvalContext::new("test".to_string())
}

fn assert_rejected(name: &str) {
    let err = validate_name(name.to_string(), &ctx()).unwrap_err();
    assert!(matches!(err.error_type, ErrorType::InvalidEntryName(_)));
    assert_eq!(err.exit_code(), 100);
}

#[test]
fn names_with_slash_are_rejected() {
    assert_rejected("a/b");
    assert_rejected("/");
}

#[test]
fn names_with_backslash_are_rejected() {
    assert_rejected("a\\b");
    assert_rejected("\\");
}

#[test]
fn names_with_nonprintable_characters_are_rejected() {
    assert_rejected("a\x01b");
    assert_rejected("with space");
    assert_rejected("tab\tin");
    assert_rejected("caf\u{e9}");
}

#[test]
fn empty_name_is_rejected() {
    assert_rejected("");
}

#[test]
fn dot_dot_is_rejected() {
    assert_rejected("..");
}

#[test]
fn ordinary_names_are_accepted() {
    for name in ["a.txt", ".", "...", "a..b", "x", "~", "!", "name-with_chars.ext"] {
        let ok = validate_name(name.to_string(), &ctx()).unwrap();
        assert_eq!(ok, name);
    }
}

#[test]
fn pack_rejects_invalid_names() {
    for bad in ["a/b", "a\\b", "", "..", "no good"] {
        let tree = FsNode::Directory {
            name: "root".to_string(),
            children: vec![FsNode::File { name: bad.to_string(), content: b"x".to_vec() }],
        };
        let err = pack(&tree, &Context { verbose: false, gzip: false }).unwrap_err();
        assert!(matches!(err.error_type, ErrorType::InvalidEntryName(_)));
    }
}

#[test]
fn pack_rejects_overlong_name() {
    let long_name: String = std::iter::repeat('a').take(300).collect();
    let tree = FsNode::Directory {
        name: "root".to_string(),
        children: vec![FsNode::File { name: long_name, content: b"x".to_vec() }],
    };
    let err = pack(&tree, &Context { verbose: false, gzip: false }).unwrap_err();
    assert!(matches!(err.error_type, ErrorType::InvalidEntryName(_)));
}

#[test]
fn unpack_rejects_invalid_names() {
    // a well-formed archive whose single file is named "a/b"
    let mut archive: Vec<u8> = Vec::new();
    archive.extend_from_slice(b"CATS");
    archive.push(1);
    archive.extend_from_slice(&[0, 1]);
    archive.push(0); // file tag
    archive.push(3);
    archive.extend_from_slice(b"a/b");
    archive.extend_from_slice(&[0, 0, 0, 0]);
    archive.extend_from_slice(&[0, 0, 0, 1]);
    archive.push(0xFF);
    archive.push(b'x'); // data region
    let err = unpack(archive.as_slice()).unwrap_err();
    assert!(matches!(err.error_type, ErrorType::InvalidEntryName(_)));
    assert_eq!(err.exit_code(), 100);
}

#[test]
fn unpack_walk_context_names_enclosing_directories() {
    // a directory "d" holding a file named "a/b": the error's context is the
    // walk context extended by the directory's name
    let mut archive: Vec<u8> = Vec::new();
    archive.extend_from_slice(b"CATS");
    archive.push(1);
    archive.extend_from_slice(&[0, 1]);
    archive.push(1); // directory tag
    archive.push(1);
    archive.push(b'd');
    archive.extend_from_slice(&[0, 1]); // one child
    archive.push(0); // file tag
    archive.push(3);
    archive.extend_from_slice(b"a/b");
    archive.extend_from_slice(&[0, 0, 0, 0]);
    archive.extend_from_slice(&[0, 0, 0, 0]);
    archive.push(0xFF);
    let err = unpack(archive.as_slice()).unwrap_err();
    match &err.error_type {
        ErrorType::InvalidEntryName(context) => {
            assert_eq!(context.render(), "unpacking/d");
        }
        other => panic!("unexpected error {:?}", other),
    }
}

#[test]
fn unpack_rejects_dot_dot_directory() {
    let mut archive: Vec<u8> = Vec::new();
    archive.extend_from_slice(b"CATS");
    archive.push(1);
    archive.extend_from_slice(&[0, 1]);
    archive.push(1); // directory tag
    archive.push(2);
    archive.extend_from_slice(b"..");
    archive.extend_from_slice(&[0, 0]); // no children
    let err = unpack(archive.as_slice()).unwrap_err();
    assert!(matches!(err.error_type, ErrorType::InvalidEntryName(_)));
}
