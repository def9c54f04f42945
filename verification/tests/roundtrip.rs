use cats::deserializing::CatDeserializable;
use cats::metadata::{Compression, Entry, FsNode, Header};
use cats::packing::{content_digest, pack};
use cats::unpacking::unpack;
use cats::Context;

fn file(name: &str, content: &[u8]) -> FsNode {
    FsNode::File { name: name.to_string(), content: content.to_vec() }
}

fn dir(name: &str, children: Vec<FsNode>) -> FsNode {
    FsNode::Directory { name: name.to_string(), children }
}

fn tree_eq(a: &FsNode, b: &FsNode) -> bool {
    match (a, b) {
        (
            FsNode::File { name: n1, content: c1 },
            FsNode::File { name: n2, content: c2 },
        ) => n1 == n2 && c1 == c2,
        (
            FsNode::Directory { name: n1, children: c1 },
            FsNode::Directory { name: n2, children: c2 },
        ) => {
            n1 == n2 && c1.len() == c2.len()
                && c1.iter().zip(c2.iter()).all(|(x, y)| tree_eq(x, y))
        }
        _ => false,
    }
}

fn trees_eq(a: &[FsNode], b: &[FsNode]) -> bool {
    a.len() == b.len() && a.iter().zip(b.iter()).all(|(x, y)| tree_eq(x, y))
}

fn sample_tree() -> FsNode {
    dir(
        "root",
        vec![
            file("a.txt", b"hello world"),
            dir(
                "sub",
                vec![
                    file("b.bin", &[0u8, 1, 2, 255, 254]),
                    file("empty", b""),
                    dir("deeper", vec![file("c", b"hello world")]),
                ],
            ),
            dir("nothing", vec![]),
        ],
    )
}

#[test]
fn round_trip_uncompressed() {
    let tree = sample_tree();
    let options = Context { verbose: false, gzip: false };
    let archive = pack(&tree, &options).unwrap();
    let nodes = unpack(archive.as_slice()).unwrap();
    match &tree {
        FsNode::Directory { children, .. } => assert!(trees_eq(children, &nodes)),
        _ => panic!("sample tree must be a directory"),
    }
}

#[test]
fn round_trip_gzip() {
    let tree = sample_tree();
    let options = Context { verbose: false, gzip: true };
    let archive = pack(&tree, &options).unwrap();
    let nodes = unpack(archive.as_slice()).unwrap();
    match &tree {
        FsNode::Directory { children, .. } => assert!(trees_eq(children, &nodes)),
        _ => panic!("sample tree must be a directory"),
    }
}

#[test]
fn gzip_actually_compresses_stored_bytes() {
    // A large repetitive file: the gzip archive must be smaller than the
    // uncompressed one, so the stored bytes really went through the
    // compressor rather than being handed back unchanged.
    let content = vec![b'x'; 100_000];
    let tree = dir("root", vec![FsNode::File { name: "big".to_string(), content }]);
    let plain = pack(&tree, &Context { verbose: false, gzip: false }).unwrap();
    let packed = pack(&tree, &Context { verbose: false, gzip: true }).unwrap();
    assert!(packed.len() < plain.len());
    let nodes = unpack(packed.as_slice()).unwrap();
    match &nodes[0] {
        FsNode::File { content, .. } => assert_eq!(content.len(), 100_000),
        _ => panic!("expected a file"),
    }
}

#[test]
fn concrete_two_file_scenario() {
    // root/a.txt = "hi" and root/sub/b.txt = "hi", compression off: one
    // two-byte data region shared by both entries.
    let tree = dir(
        "root",
        vec![file("a.txt", b"hi"), dir("sub", vec![file("b.txt", b"hi")])],
    );
    let archive = pack(&tree, &Context { verbose: false, gzip: false }).unwrap();

    let mut expected: Vec<u8> = Vec::new();
    expected.extend_from_slice(b"CATS");
    expected.push(1); // version
    expected.extend_from_slice(&[0, 2]); // two top-level entries
    expected.push(0); // file tag
    expected.push(5);
    expected.extend_from_slice(b"a.txt");
    expected.extend_from_slice(&[0, 0, 0, 0]); // offset 0
    expected.extend_from_slice(&[0, 0, 0, 2]); // size 2
    expected.push(0xFF); // no compression
    expected.push(1); // directory tag
    expected.push(3);
    expected.extend_from_slice(b"sub");
    expected.extend_from_slice(&[0, 1]); // one child
    expected.push(0); // file tag
    expected.push(5);
    expected.extend_from_slice(b"b.txt");
    expected.extend_from_slice(&[0, 0, 0, 0]); // offset 0: deduplicated
    expected.extend_from_slice(&[0, 0, 0, 2]);
    expected.push(0xFF);
    expected.extend_from_slice(b"hi"); // the single stored copy
    assert_eq!(archive, expected);
}

#[test]
fn dedup_identical_content_shares_location() {
    let tree = dir(
        "root",
        vec![
            file("one", b"same bytes"),
            file("two", b"same bytes"),
            file("other", b"different"),
        ],
    );
    let archive = pack(&tree, &Context { verbose: false, gzip: false }).unwrap();
    // decode the header back and compare the three file locations
    let mut pos: usize = 4;
    let header = Header::deserialize(
        archive.as_slice(),
        &mut pos,
        &cats::utils::EvalContext::new("header".to_string()),
    )
    .unwrap();
    let loc = |e: &Entry| match e {
        Entry::File { offset, size, .. } => (*offset, *size),
        _ => panic!("expected a file"),
    };
    assert_eq!(loc(&header.entries[0]), loc(&header.entries[1]));
    assert_ne!(loc(&header.entries[0]), loc(&header.entries[2]));
    // data region holds one copy of "same bytes" and one of "different"
    assert_eq!(archive.len() - pos, "same bytes".len() + "different".len());
}

#[test]
fn dedup_applies_across_compression() {
    let tree = dir(
        "root",
        vec![file("one", b"same bytes, compressed"), file("two", b"same bytes, compressed")],
    );
    let archive = pack(&tree, &Context { verbose: false, gzip: true }).unwrap();
    let mut pos: usize = 4;
    let header = Header::deserialize(
        archive.as_slice(),
        &mut pos,
        &cats::utils::EvalContext::new("header".to_string()),
    )
    .unwrap();
    match (&header.entries[0], &header.entries[1]) {
        (
            Entry::File { offset: o1, size: s1, compression: z1, .. },
            Entry::File { offset: o2, size: s2, compression: z2, .. },
        ) => {
            assert_eq!((o1, s1), (o2, s2));
            assert!(matches!(z1, Compression::Gzip));
            assert!(matches!(z2, Compression::Gzip));
            assert_eq!((archive.len() - pos) as u32, *s1);
        }
        _ => panic!("expected two files"),
    }
}

#[test]
fn pack_rejects_bare_file_content_changes() {
    // two different contents give two different regions and both survive
    let tree = dir("root", vec![file("a", b"first"), file("b", b"second")]);
    let archive = pack(&tree, &Context { verbose: false, gzip: false }).unwrap();
    let nodes = unpack(archive.as_slice()).unwrap();
    match (&nodes[0], &nodes[1]) {
        (FsNode::File { content: c1, .. }, FsNode::File { content: c2, .. }) => {
            assert_eq!(c1, b"first");
            assert_eq!(c2, b"second");
        }
        _ => panic!("expected two files"),
    }
}

#[test]
fn pack_is_deterministic() {
    // equal trees and equal options give byte-identical archives
    let first = pack(&sample_tree(), &Context { verbose: false, gzip: true }).unwrap();
    let second = pack(&sample_tree(), &Context { verbose: false, gzip: true }).unwrap();
    assert_eq!(first, second);
    let plain_first = pack(&sample_tree(), &Context { verbose: false, gzip: false }).unwrap();
    let plain_second = pack(&sample_tree(), &Context { verbose: false, gzip: false }).unwrap();
    assert_eq!(plain_first, plain_second);
}

#[test]
fn content_digest_matches_known_vectors() {
    assert_eq!(
        content_digest(b""),
        "e3b0c44298fc1c149afbf4c8996fb92427ae41e4649b934ca495991b7852b855"
    );
    assert_eq!(
        content_digest(b"abc"),
        "ba7816bf8f01cfea414140de5dae2223b00361a396177a9cb410ff61f20015ad"
    );
}
