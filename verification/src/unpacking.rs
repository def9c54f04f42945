use crate::deserializing::{
    decode_failure_matches, spec_decode_header, CatDeserializable, DecodeFailure,
};
use crate::error::{CatResult, ErrorType};
use crate::metadata::{
    entries_view, entry_view, fs_node_view, fs_nodes_view, Compression, Entry, EntryView, FsNode,
    FsNodeView, Header, HeaderView,
};
use crate::utils::{spec_read_u8, valid_name, validate_name, EvalContext};
use vstd::prelude::*;
use vstd::string::StringExecFns;

verus! {

/// What gzip decompression returns on a byte sequence: the restored bytes,
/// or nothing where the sequence is not a valid gzip stream; it depends on
/// the bytes alone.
pub uninterp spec fn gunzip_of(bytes: Seq<u8>) -> Option<Seq<u8>>;

/// Relies on `flate2::read::GzDecoder`: reading it to the end yields the
/// bytes the gzip stream encodes and fails exactly on input that is not a
/// valid gzip stream, depending on the input bytes alone.
#[verifier::external_body]
fn gzip_decompress(bytes: &[u8]) -> (r: Result<Vec<u8>, ()>)
    ensures
        match r {
            Ok(v) => gunzip_of(bytes@) == Some(v@),
            Err(_) => gunzip_of(bytes@) is None,
        },
{
    let mut decoder = flate2::read::GzDecoder::new(bytes);
    let mut out = Vec::new();
    match std::io::Read::read_to_end(&mut decoder, &mut out) {
        Ok(_) => Ok(out),
        Err(_) => Err(()),
    }
}

/// The bytes stored in the data region carry the given raw content under the
/// given compression mode.
pub open spec fn stored_matches(stored: Seq<u8>, content: Seq<u8>, c: Compression) -> bool {
    match c {
        Compression::Uncompressed => stored == content,
        Compression::Gzip => gunzip_of(stored) == Some(content),
    }
}

/// A failure of the unpacking walk or of the archive's envelope: which rule
/// broke, and the context chain the raised error carries.
pub enum UnpackFailure {
    BadMagic,
    Decode(DecodeFailure),
    BadEntryName { context: Seq<Seq<char>> },
    BadEntryData { context: Seq<Seq<char>> },
}

/// The error an unpacking failure is raised as: a wrong magic becomes
/// `InvalidFileType`, a decoding failure its own error, an invalid name
/// `InvalidEntryName`, and an out-of-range slice or undecodable blob
/// `InvalidEntryData`, each carrying the failure's context.
pub open spec fn unpack_failure_matches(e: ErrorType, f: UnpackFailure) -> bool {
    match f {
        UnpackFailure::BadMagic => e is InvalidFileType,
        UnpackFailure::Decode(d) => decode_failure_matches(e, d),
        UnpackFailure::BadEntryName { context } => e matches ErrorType::InvalidEntryName(c) && c@
            == context,
        UnpackFailure::BadEntryData { context } => e matches ErrorType::InvalidEntryData(c) && c@
            == context,
    }
}

/// The tree node an entry denotes against a data region: its name validated,
/// its bytes sliced out of the region and decompressed. Failures carry the
/// walk context, which a directory extends by its own validated name before
/// its children.
pub open spec fn extract_node(e: EntryView, data: Seq<u8>, ctx: Seq<Seq<char>>) -> Result<
    FsNodeView,
    UnpackFailure,
>
    decreases e,
{
    match e {
        EntryView::File { name, offset, size, compression } => {
            if !valid_name(name) {
                Err(UnpackFailure::BadEntryName { context: ctx })
            } else if offset + size > data.len() {
                Err(UnpackFailure::BadEntryData { context: ctx })
            } else {
                let stored = data.subrange(offset as int, offset as int + size as int);
                match compression {
                    Compression::Uncompressed => Ok(FsNodeView::File { name, content: stored }),
                    Compression::Gzip => match gunzip_of(stored) {
                        Option::Some(content) => Ok(FsNodeView::File { name, content }),
                        Option::None => Err(UnpackFailure::BadEntryData { context: ctx }),
                    },
                }
            }
        },
        EntryView::Directory { name, entries } => {
            if !valid_name(name) {
                Err(UnpackFailure::BadEntryName { context: ctx })
            } else {
                match extract_nodes(entries, data, ctx.push(name)) {
                    Ok(children) => Ok(FsNodeView::Directory { name, children }),
                    Err(f) => Err(f),
                }
            }
        },
    }
}

/// The tree nodes a sequence of entries denotes, in order, every one under
/// the same (already extended) context.
pub open spec fn extract_nodes(es: Seq<EntryView>, data: Seq<u8>, cctx: Seq<Seq<char>>) -> Result<
    Seq<FsNodeView>,
    UnpackFailure,
>
    decreases es,
{
    if es.len() == 0 {
        Ok(Seq::empty())
    } else {
        match extract_node(es[0], data, cctx) {
            Err(f) => Err(f),
            Ok(n) => match extract_nodes(es.subrange(1, es.len() as int), data, cctx) {
                Err(f) => Err(f),
                Ok(rest) => Ok(seq![n] + rest),
            },
        }
    }
}

/// The tree an archive denotes: the magic must match, the header must decode
/// with version 1, and every entry must extract against the data region that
/// follows the header - or the first failure met, with the context its error
/// carries.
pub open spec fn spec_unpack(archive: Seq<u8>) -> Result<Seq<FsNodeView>, UnpackFailure> {
    if archive.len() < 4 || archive.subrange(0, 4) != crate::metadata::spec_magic() {
        Err(UnpackFailure::BadMagic)
    } else {
        match spec_decode_header(archive, 4, seq!["header"@]) {
            Err(f) => Err(UnpackFailure::Decode(f)),
            Ok((h, end)) => extract_nodes(
                h.entries,
                archive.subrange(end, archive.len() as int),
                seq!["unpacking"@],
            ),
        }
    }
}

/// Materializes one decoded entry against the data region as a plain tree
/// node: names are validated, file bytes are sliced out and decompressed; a
/// directory's children walk under the context extended by its name. The
/// result is exactly [`extract_node`] of the entry.
#[verifier::loop_isolation(false)]
pub fn unpack_entry(data: &[u8], entry: &Entry, eval_context: &EvalContext) -> (r: CatResult<
    FsNode,
>)
    ensures
        match r {
            Ok(n) => extract_node(entry@, data@, eval_context@) == Ok::<_, UnpackFailure>(n@),
            Err(e) => extract_node(entry@, data@, eval_context@) matches Err(f)
                && unpack_failure_matches(e.error_type, f),
        },
    decreases entry@,
{
    match entry {
        Entry::Directory { name, entries } => {
            let validated = match validate_name(name.clone(), eval_context) {
                Ok(v) => v,
                Err(e) => {
                    return Err(e);
                },
            };
            let child_context = eval_context.push(validated.clone());
            let ghost cctx = eval_context@.push(name@);
            proof {
                assert(child_context@ =~= cctx);
            }
            let ghost views = entries_view(entries@);
            proof {
                crate::metadata::lemma_entries_view(entries@);
            }
            let n = entries.len();
            let mut children: Vec<FsNode> = Vec::new();
            proof {
                match extract_nodes(views, data@, cctx) {
                    Ok(rest) => {
                        assert(Seq::<FsNodeView>::empty() + rest =~= rest);
                        assert(views.subrange(0, views.len() as int) =~= views);
                    },
                    Err(_) => {
                        assert(views.subrange(0, views.len() as int) =~= views);
                    },
                }
            }
            for i in 0..n
                invariant
                    n == entries.len(),
                    views.len() == n,
                    children@.len() == i,
                    match extract_nodes(views.subrange(i as int, n as int), data@, cctx) {
                        Ok(rest) => extract_nodes(views, data@, cctx) == Ok::<_, UnpackFailure>(
                            fs_nodes_view(children@) + rest,
                        ),
                        Err(f) => extract_nodes(views, data@, cctx) == Err::<Seq<FsNodeView>, _>(
                            f,
                        ),
                    },
            {
                proof {
                    crate::metadata::lemma_entries_view(entries@);
                }
                let ghost old_children = children@;
                proof {
                    let ev = entry@;
                    assert(ev->Directory_entries == views);
                    assert(decreases_to!(ev => ev->Directory_entries));
                    assert(decreases_to!(views => views[i as int]));
                    assert(views[i as int] == entries@[i as int]@);
                }
                let child = match unpack_entry(data, &entries[i], &child_context) {
                    Ok(v) => v,
                    Err(e) => {
                        proof {
                            let suffix = views.subrange(i as int, n as int);
                            assert(suffix[0] == views[i as int]);
                        }
                        return Err(e);
                    },
                };
                children.push(child);
                proof {
                    let cs = children@;
                    assert(cs.drop_last() =~= old_children);
                    assert(fs_nodes_view(cs) == fs_nodes_view(cs.subrange(0, cs.len() - 1)).push(
                        fs_node_view(cs[cs.len() - 1]),
                    ));
                    assert(fs_nodes_view(cs) == fs_nodes_view(old_children).push(child@));
                    let suffix = views.subrange(i as int, n as int);
                    assert(suffix[0] == views[i as int]);
                    assert(suffix.subrange(1, suffix.len() as int) =~= views.subrange(
                        i as int + 1,
                        n as int,
                    ));
                    match extract_nodes(views.subrange(i as int + 1, n as int), data@, cctx) {
                        Ok(rest2) => {
                            assert(fs_nodes_view(old_children) + (seq![child@] + rest2)
                                =~= fs_nodes_view(cs) + rest2);
                        },
                        Err(_) => {},
                    }
                }
            }
            proof {
                assert(views.subrange(n as int, n as int) =~= Seq::<EntryView>::empty());
                assert(extract_nodes(Seq::<EntryView>::empty(), data@, cctx) == Ok::<
                    _,
                    UnpackFailure,
                >(Seq::<FsNodeView>::empty()));
                assert(fs_nodes_view(children@) + Seq::<FsNodeView>::empty() =~= fs_nodes_view(
                    children@,
                ));
            }
            Ok(FsNode::Directory { name: validated, children })
        },
        Entry::File { name, offset, size, compression } => {
            let validated = match validate_name(name.clone(), eval_context) {
                Ok(v) => v,
                Err(e) => {
                    return Err(e);
                },
            };
            let offset_64 = *offset as u64;
            let size_64 = *size as u64;
            if offset_64 + size_64 > data.len() as u64 {
                return Err(ErrorType::InvalidEntryData(eval_context.clone()).new());
            }
            let start = *offset as usize;
            let end = start + *size as usize;
            let stored = vstd::slice::slice_subrange(data, start, end);
            let content = match compression {
                Compression::Uncompressed => vstd::slice::slice_to_vec(stored),
                Compression::Gzip => match gzip_decompress(stored) {
                    Ok(v) => v,
                    Err(_) => {
                        return Err(ErrorType::InvalidEntryData(eval_context.clone()).new());
                    },
                },
            };
            Ok(FsNode::File { name: validated, content })
        },
    }
}

/// Unpacks an archive held in memory into the directory tree it encodes:
/// checks the magic, decodes the header, then materializes every entry
/// against the data region. The result - the tree, or the first failure with
/// the error it is raised as - is exactly [`spec_unpack`] of the bytes.
#[verifier::loop_isolation(false)]
pub fn unpack(archive: &[u8]) -> (r: CatResult<Vec<FsNode>>)
    ensures
        match r {
            Ok(nodes) => spec_unpack(archive@) == Ok::<_, UnpackFailure>(fs_nodes_view(nodes@)),
            Err(e) => spec_unpack(archive@) matches Err(f) && unpack_failure_matches(
                e.error_type,
                f,
            ),
        },
        (archive@.len() < 4 || archive@.subrange(0, 4) != crate::metadata::spec_magic()) ==> (r
            matches Err(e) && e.error_type is InvalidFileType),
        (archive@.len() >= 4 && archive@.subrange(0, 4) == crate::metadata::spec_magic() && (
        match spec_read_u8(archive@, 4) {
            Option::Some((v, _)) => v != 1,
            Option::None => false,
        })) ==> (r matches Err(e) && e.error_type is UnknownVersion),
{
    let bad_magic = archive.len() < 4 || archive[0] != 0x43 || archive[1] != 0x41 || archive[2]
        != 0x54 || archive[3] != 0x53;
    proof {
        if archive@.len() >= 4 {
            let m = crate::metadata::spec_magic();
            let pre = archive@.subrange(0, 4);
            if !bad_magic {
                assert(pre =~= m);
            } else {
                assert(pre[0] == archive@[0] && pre[1] == archive@[1] && pre[2] == archive@[2]
                    && pre[3] == archive@[3]);
                assert(pre != m);
            }
        }
    }
    if bad_magic {
        return Err(ErrorType::InvalidFileType.new());
    }
    let header_context = EvalContext::new(String::from_str("header"));
    proof {
        assert(header_context@ =~= seq!["header"@]);
    }
    let mut pos: usize = 4;
    let header = match Header::deserialize(archive, &mut pos, &header_context) {
        Ok(h) => h,
        Err(e) => {
            return Err(e);
        },
    };
    let data = vstd::slice::slice_subrange(archive, pos, archive.len());
    let walk_context = EvalContext::new(String::from_str("unpacking"));
    let ghost wctx = seq!["unpacking"@];
    proof {
        assert(walk_context@ =~= wctx);
    }
    let ghost views = entries_view(header.entries@);
    proof {
        crate::metadata::lemma_entries_view(header.entries@);
    }
    let n = header.entries.len();
    let mut nodes: Vec<FsNode> = Vec::new();
    proof {
        match extract_nodes(views, data@, wctx) {
            Ok(rest) => {
                assert(Seq::<FsNodeView>::empty() + rest =~= rest);
                assert(views.subrange(0, views.len() as int) =~= views);
            },
            Err(_) => {
                assert(views.subrange(0, views.len() as int) =~= views);
            },
        }
    }
    for i in 0..n
        invariant
            n == header.entries.len(),
            views.len() == n,
            nodes@.len() == i,
            match extract_nodes(views.subrange(i as int, n as int), data@, wctx) {
                Ok(rest) => extract_nodes(views, data@, wctx) == Ok::<_, UnpackFailure>(
                    fs_nodes_view(nodes@) + rest,
                ),
                Err(f) => extract_nodes(views, data@, wctx) == Err::<Seq<FsNodeView>, _>(f),
            },
    {
        proof {
            crate::metadata::lemma_entries_view(header.entries@);
        }
        let ghost old_nodes = nodes@;
        let node = match unpack_entry(data, &header.entries[i], &walk_context) {
            Ok(v) => v,
            Err(e) => {
                proof {
                    let suffix = views.subrange(i as int, n as int);
                    assert(suffix[0] == views[i as int]);
                }
                return Err(e);
            },
        };
        nodes.push(node);
        proof {
            let cs = nodes@;
            assert(cs.drop_last() =~= old_nodes);
            assert(fs_nodes_view(cs) == fs_nodes_view(cs.subrange(0, cs.len() - 1)).push(
                fs_node_view(cs[cs.len() - 1]),
            ));
            assert(fs_nodes_view(cs) == fs_nodes_view(old_nodes).push(node@));
            let suffix = views.subrange(i as int, n as int);
            assert(suffix[0] == views[i as int]);
            assert(suffix.subrange(1, suffix.len() as int) =~= views.subrange(
                i as int + 1,
                n as int,
            ));
            match extract_nodes(views.subrange(i as int + 1, n as int), data@, wctx) {
                Ok(rest2) => {
                    assert(fs_nodes_view(old_nodes) + (seq![node@] + rest2) =~= fs_nodes_view(cs)
                        + rest2);
                },
                Err(_) => {},
            }
        }
    }
    proof {
        assert(views.subrange(n as int, n as int) =~= Seq::<EntryView>::empty());
        assert(extract_nodes(Seq::<EntryView>::empty(), data@, wctx) == Ok::<_, UnpackFailure>(
            Seq::<FsNodeView>::empty(),
        ));
        assert(fs_nodes_view(nodes@) + Seq::<FsNodeView>::empty() =~= fs_nodes_view(nodes@));
    }
    Ok(nodes)
}

/// An entry that denotes a node against a data region extracts back to
/// exactly that node, under any context.
pub proof fn lemma_matches_extract(e: EntryView, n: FsNodeView, data: Seq<u8>, ctx: Seq<Seq<char>>)
    requires
        crate::packing::entry_matches_node(e, n, data),
    ensures
        extract_node(e, data, ctx) == Ok::<_, UnpackFailure>(n),
    decreases e,
{
    match (e, n) {
        (EntryView::Directory { name, entries }, FsNodeView::Directory { children, .. }) => {
            lemma_matches_nodes_extract(entries, children, data, ctx.push(name));
        },
        _ => {},
    }
}

/// Entries that denote nodes extract back to exactly those nodes, in order,
/// under any context.
pub proof fn lemma_matches_nodes_extract(
    es: Seq<EntryView>,
    ns: Seq<FsNodeView>,
    data: Seq<u8>,
    cctx: Seq<Seq<char>>,
)
    requires
        crate::packing::entries_match_nodes(es, ns, data),
    ensures
        extract_nodes(es, data, cctx) == Ok::<_, UnpackFailure>(ns),
    decreases es,
{
    if es.len() == 0 {
        assert(ns =~= Seq::<FsNodeView>::empty());
    } else {
        lemma_matches_extract(es[0], ns[0], data, cctx);
        lemma_matches_nodes_extract(
            es.subrange(1, es.len() as int),
            ns.subrange(1, ns.len() as int),
            data,
            cctx,
        );
        assert(seq![ns[0]] + ns.subrange(1, ns.len() as int) =~= ns);
    }
}

/// Round trip: an archive of the shape the packer produces for a directory
/// tree unpacks to exactly that tree's children, whichever compression
/// setting the pack run used.
pub proof fn lemma_pack_unpack_round_trip(root: FsNodeView, archive: Seq<u8>)
    requires
        crate::packing::pack_result_ok(root, archive),
    ensures
        root is Directory,
        spec_unpack(archive) == Ok::<_, UnpackFailure>(root->Directory_children),
{
    let (h, data) = choose|h: HeaderView, data: Seq<u8>|
        crate::packing::pack_shape(root, archive, h, data);
    let magic = crate::metadata::spec_magic();
    let enc = crate::serializing::spec_encode_header(h);
    assert(archive == magic + enc + data);
    assert(archive.len() == 4 + enc.len() + data.len());
    assert forall|j: int| 0 <= j < 4 implies archive[j] == magic[j] by {
        assert(archive[j] == (magic + enc + data)[j]);
    }
    assert(archive.subrange(0, 4) =~= magic);
    assert forall|j: int| 0 <= j < enc.len() implies archive.subrange(
        4,
        4 + enc.len() as int,
    )[j] == enc[j] by {
        assert(archive[4 + j] == (magic + enc + data)[4 + j]);
    }
    assert(archive.subrange(4, 4 + enc.len() as int) =~= enc);
    crate::deserializing::lemma_decode_encode_header(archive, 4, h, seq!["header"@]);
    let end = 4 + enc.len() as int;
    assert forall|j: int| 0 <= j < data.len() implies archive.subrange(
        end,
        archive.len() as int,
    )[j] == data[j] by {
        assert(archive[end + j] == (magic + enc + data)[end + j]);
    }
    assert(archive.subrange(end, archive.len() as int) =~= data);
    let children = root->Directory_children;
    lemma_matches_nodes_extract(h.entries, children, data, seq!["unpacking"@]);
}

} // verus!
