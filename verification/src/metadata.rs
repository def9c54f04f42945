use vstd::prelude::*;

verus! {

/// The four magic bytes every archive starts with: ASCII `CATS`.
pub open spec fn spec_magic() -> Seq<u8> {
    seq![0x43u8, 0x41u8, 0x54u8, 0x53u8]
}

/// Compression applied to one stored blob, encoded on the wire as a single
/// sentinel byte: `0xFE` for gzip, `0xFF` for none.
#[derive(Debug, Clone, Copy, PartialEq, Eq, Structural)]
pub enum Compression {
    Gzip,
    Uncompressed,
}

/// A node of the packed tree: either a file pointing into the shared data
/// region by offset and size, or a directory owning its children in walk
/// order.
#[derive(Debug)]
pub enum Entry {
    Directory { name: String, entries: Vec<Entry> },
    File { name: String, offset: u32, size: u32, compression: Compression },
}

/// The archive header: a format version and the top-level entries of the
/// packed root directory (the root itself is not represented).
#[derive(Debug)]
pub struct Header {
    pub version: u8,
    pub entries: Vec<Entry>,
}

/// Mathematical model of an [`Entry`].
pub enum EntryView {
    Directory { name: Seq<char>, entries: Seq<EntryView> },
    File { name: Seq<char>, offset: u32, size: u32, compression: Compression },
}

/// Mathematical model of a [`Header`].
pub struct HeaderView {
    pub version: u8,
    pub entries: Seq<EntryView>,
}

pub open spec fn entry_view(e: Entry) -> EntryView
    decreases e,
{
    match e {
        Entry::Directory { name, entries } => EntryView::Directory {
            name: name@,
            entries: entries_view(entries@),
        },
        Entry::File { name, offset, size, compression } => EntryView::File {
            name: name@,
            offset,
            size,
            compression,
        },
    }
}

pub open spec fn entries_view(es: Seq<Entry>) -> Seq<EntryView>
    decreases es,
{
    if es.len() == 0 {
        Seq::empty()
    } else {
        entries_view(es.subrange(0, es.len() - 1)).push(entry_view(es[es.len() - 1]))
    }
}

/// `entries_view` maps `entry_view` over the sequence, element by element.
pub proof fn lemma_entries_view(es: Seq<Entry>)
    ensures
        entries_view(es).len() == es.len(),
        forall|i: int| 0 <= i < es.len() ==> #[trigger] entries_view(es)[i] == entry_view(es[i]),
    decreases es.len(),
{
    if es.len() > 0 {
        lemma_entries_view(es.subrange(0, es.len() - 1));
    }
}

/// A directory tree held as plain values: what the packer reads and the
/// unpacker reproduces. File contents are the raw, uncompressed bytes.
#[derive(Debug)]
pub enum FsNode {
    Directory { name: String, children: Vec<FsNode> },
    File { name: String, content: Vec<u8> },
}

/// Mathematical model of an [`FsNode`].
pub enum FsNodeView {
    Directory { name: Seq<char>, children: Seq<FsNodeView> },
    File { name: Seq<char>, content: Seq<u8> },
}

pub open spec fn fs_node_view(n: FsNode) -> FsNodeView
    decreases n,
{
    match n {
        FsNode::Directory { name, children } => FsNodeView::Directory {
            name: name@,
            children: fs_nodes_view(children@),
        },
        FsNode::File { name, content } => FsNodeView::File { name: name@, content: content@ },
    }
}

pub open spec fn fs_nodes_view(ns: Seq<FsNode>) -> Seq<FsNodeView>
    decreases ns,
{
    if ns.len() == 0 {
        Seq::empty()
    } else {
        fs_nodes_view(ns.subrange(0, ns.len() - 1)).push(fs_node_view(ns[ns.len() - 1]))
    }
}

/// `fs_nodes_view` maps `fs_node_view` over the sequence, element by
/// element.
pub proof fn lemma_fs_nodes_view(ns: Seq<FsNode>)
    ensures
        fs_nodes_view(ns).len() == ns.len(),
        forall|i: int| 0 <= i < ns.len() ==> #[trigger] fs_nodes_view(ns)[i] == fs_node_view(ns[i]),
    decreases ns.len(),
{
    if ns.len() > 0 {
        lemma_fs_nodes_view(ns.subrange(0, ns.len() - 1));
    }
}

impl View for FsNode {
    type V = FsNodeView;

    open spec fn view(&self) -> FsNodeView {
        fs_node_view(*self)
    }
}

impl View for Entry {
    type V = EntryView;

    open spec fn view(&self) -> EntryView {
        entry_view(*self)
    }
}

impl View for Header {
    type V = HeaderView;

    open spec fn view(&self) -> HeaderView {
        HeaderView { version: self.version, entries: entries_view(self.entries@) }
    }
}

} // verus!
