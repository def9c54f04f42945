use crate::error::{CatResult, ErrorType};
use crate::Context;
use crate::metadata::{
    entries_view, entry_view, fs_node_view, fs_nodes_view, Compression, Entry, EntryView, FsNode,
    FsNodeView, Header, HeaderView,
};
use crate::serializing::{
    encodable_entries, encodable_entry, encodable_header, spec_encode_header, CatSerializable,
};
use crate::unpacking::{gunzip_of, stored_matches};
use crate::utils::{
    spec_digit_char, valid_name, validate_name, wrap_context, EvalContext, MetaErrorKind,
};
use vstd::prelude::*;
use vstd::string::StringExecFns;
use sha2::Digest;
use vstd::utf8::{encode_utf8, is_ascii_chars, is_ascii_chars_encode_utf8};

verus! {

/// What `sha2::Sha256::digest` returns: a digest depending on the bytes
/// alone.
pub uninterp spec fn sha256_of(bytes: Seq<u8>) -> Seq<u8>;

/// Relies on `sha2::Sha256::digest`: a fixed 32-byte digest of the input,
/// depending on the input bytes alone.
#[verifier::external_body]
fn sha256_digest(bytes: &[u8]) -> (r: Vec<u8>)
    ensures
        r@ == sha256_of(bytes@),
        r@.len() == 32,
{
    sha2::Sha256::digest(bytes).to_vec()
}

/// One lowercase hexadecimal digit.
pub open spec fn hex_digit(d: int) -> char {
    if d < 10 {
        spec_digit_char(d)
    } else if d == 10 {
        'a'
    } else if d == 11 {
        'b'
    } else if d == 12 {
        'c'
    } else if d == 13 {
        'd'
    } else if d == 14 {
        'e'
    } else {
        'f'
    }
}

/// The lowercase hexadecimal rendering of a byte sequence: two digits per
/// byte, high nibble first.
pub open spec fn hex_of(bytes: Seq<u8>) -> Seq<char> {
    Seq::new(2 * bytes.len(), |i: int| if i % 2 == 0 {
        hex_digit((bytes[i / 2] >> 4) as int)
    } else {
        hex_digit((bytes[i / 2] & 0x0F) as int)
    })
}

/// Relies on `hex::encode`: two lowercase hexadecimal digits per input byte,
/// high nibble first.
#[verifier::external_body]
fn hex_encode(bytes: &[u8]) -> (r: String)
    ensures
        r@ == hex_of(bytes@),
{
    hex::encode(bytes)
}

/// The content digest used as the deduplication key: the lowercase
/// hexadecimal SHA-256 of the raw bytes.
pub fn content_digest(bytes: &[u8]) -> (r: String)
    ensures
        r@ == hex_of(sha256_of(bytes@)),
{
    let digest = sha256_digest(bytes);
    hex_encode(digest.as_slice())
}

/// What gzip compression at the strongest setting produces for a byte
/// sequence; it depends on the bytes alone (flate2 fixes every header field
/// for cross-platform reproducibility).
pub uninterp spec fn gzip_of(bytes: Seq<u8>) -> Seq<u8>;

/// Relies on `flate2::read::GzEncoder` over an in-memory slice: compressing
/// cannot fail there, the stream depends on the input bytes alone, and
/// `flate2::read::GzDecoder` restores exactly the input from it.
#[verifier::external_body]
fn gzip_compress(bytes: &[u8]) -> (r: Vec<u8>)
    ensures
        r@ == gzip_of(bytes@),
        gunzip_of(r@) == Some(bytes@),
{
    let mut encoder = flate2::read::GzEncoder::new(bytes, flate2::Compression::best());
    let mut out = Vec::new();
    std::io::Read::read_to_end(&mut encoder, &mut out)
        .expect("reading a gzip encoder over an in-memory slice cannot fail");
    out
}

/// The bytes stored in the data region for a file's raw content under the
/// run's compression setting.
pub open spec fn stored_bytes_of(content: Seq<u8>, gzip: bool) -> Seq<u8> {
    if gzip {
        gzip_of(content)
    } else {
        content
    }
}

/// Compares two byte strings.
fn bytes_equal(a: &[u8], b: &[u8]) -> (r: bool)
    ensures
        r == (a@ == b@),
{
    if a.len() != b.len() {
        proof {
            assert(a@ != b@);
        }
        return false;
    }
    let n = a.len();
    for i in 0..n
        invariant
            n == a@.len() == b@.len(),
            forall|j: int| 0 <= j < i ==> a@[j] == b@[j],
    {
        if a[i] != b[i] {
            return false;
        }
    }
    proof {
        assert(a@ =~= b@);
    }
    true
}

/// One deduplicated blob of the content store: the digest key, the raw
/// content it stands for, and where its (possibly compressed) bytes live in
/// the data region.
pub struct StoreRecord {
    pub digest: String,
    pub content: Vec<u8>,
    pub offset: u32,
    pub size: u32,
    pub compression: Compression,
}

/// A record points at bytes of the data region that carry its content, and
/// its digest is the content's digest.
pub open spec fn record_ok(r: StoreRecord, data: Seq<u8>) -> bool {
    &&& r.offset + r.size <= data.len()
    &&& stored_matches(
        data.subrange(r.offset as int, r.offset as int + r.size as int),
        r.content@,
        r.compression,
    )
    &&& r.digest@ == hex_of(sha256_of(r.content@))
}

/// The content store invariant: every record is backed by the data region
/// and no two records hold the same content.
pub open spec fn store_ok(store: Seq<StoreRecord>, data: Seq<u8>) -> bool {
    &&& forall|i: int| 0 <= i < store.len() ==> record_ok(#[trigger] store[i], data)
    &&& forall|i: int, j: int|
        0 <= i < j < store.len() ==> store[i].content@ != store[j].content@
}

/// The mapping a store denotes: from raw content to the location and
/// compression of its stored copy.
pub open spec fn store_map(store: Seq<StoreRecord>) -> Map<Seq<u8>, (u32, u32, Compression)>
    decreases store.len(),
{
    if store.len() == 0 {
        Map::empty()
    } else {
        store_map(store.drop_last()).insert(
            store.last().content@,
            (store.last().offset, store.last().size, store.last().compression),
        )
    }
}

/// The domain of the store's map is exactly the contents of its records.
pub proof fn lemma_store_map_dom(store: Seq<StoreRecord>)
    ensures
        forall|c: Seq<u8>|
            #[trigger] store_map(store).contains_key(c) <==> exists|i: int|
                0 <= i < store.len() && store[i].content@ == c,
    decreases store.len(),
{
    if store.len() > 0 {
        let prev = store.drop_last();
        let last = store.last();
        lemma_store_map_dom(prev);
        assert(store_map(store) == store_map(prev).insert(
            last.content@,
            (last.offset, last.size, last.compression),
        ));
        assert forall|c: Seq<u8>| #[trigger] store_map(store).contains_key(c) implies exists|
            i: int,
        | 0 <= i < store.len() && store[i].content@ == c by {
            if c == last.content@ {
                assert(store[store.len() - 1].content@ == c);
            } else {
                assert(store_map(prev).contains_key(c));
                let i = choose|i: int| 0 <= i < prev.len() && prev[i].content@ == c;
                assert(prev[i] == store[i]);
                assert(store[i].content@ == c);
            }
        }
        assert forall|c: Seq<u8>| (exists|i: int| 0 <= i < store.len() && store[i].content@ == c)
            implies #[trigger] store_map(store).contains_key(c) by {
            let i = choose|i: int| 0 <= i < store.len() && store[i].content@ == c;
            if i == store.len() - 1 {
                assert(store_map(store).contains_key(c));
            } else {
                assert(prev[i] == store[i]);
                assert(0 <= i < prev.len() && prev[i].content@ == c);
                assert(store_map(prev).contains_key(c));
            }
        }
    }
}

/// Where record contents are unique, a record's location is exactly its
/// map value.
pub proof fn lemma_store_map_loc_at(store: Seq<StoreRecord>, i: int)
    requires
        forall|a: int, b: int|
            0 <= a < b < store.len() ==> store[a].content@ != store[b].content@,
        0 <= i < store.len(),
    ensures
        store_map(store).contains_key(store[i].content@),
        store_map(store)[store[i].content@] == (store[i].offset, store[i].size, store[i].compression),
    decreases store.len(),
{
    let prev = store.drop_last();
    let last = store.last();
    assert(store_map(store) == store_map(prev).insert(
        last.content@,
        (last.offset, last.size, last.compression),
    ));
    if i < store.len() - 1 {
        assert forall|a: int, b: int| 0 <= a < b < prev.len() implies prev[a].content@
            != prev[b].content@ by {
            assert(prev[a] == store[a] && prev[b] == store[b]);
        }
        lemma_store_map_loc_at(prev, i);
        assert(prev[i] == store[i]);
        assert(store[i].content@ != last.content@);
    }
}

/// `m2` carries every binding of `m1`.
pub open spec fn map_extends(
    m2: Map<Seq<u8>, (u32, u32, Compression)>,
    m1: Map<Seq<u8>, (u32, u32, Compression)>,
) -> bool {
    forall|k: Seq<u8>|
        #[trigger] m1.contains_key(k) ==> m2.contains_key(k) && m2[k] == m1[k]
}

/// A tree the packer accepts without reservation: every name passes
/// validation and fits the one-byte length prefix, and every directory's
/// child count fits the two-byte count field.
pub open spec fn valid_fs_node(n: FsNodeView) -> bool
    decreases n,
{
    match n {
        FsNodeView::File { name, .. } => valid_name(name) && name.len() <= 255,
        FsNodeView::Directory { name, children } => valid_name(name) && name.len() <= 255
            && children.len() <= 65535 && valid_fs_nodes(children),
    }
}

/// All nodes of the sequence are valid.
pub open spec fn valid_fs_nodes(ns: Seq<FsNodeView>) -> bool
    decreases ns,
{
    ns.len() == 0 || (valid_fs_node(ns[0]) && valid_fs_nodes(ns.subrange(1, ns.len() as int)))
}

/// A sequence of nodes is valid exactly when each of its nodes is.
pub proof fn lemma_valid_fs_nodes_elementwise(ns: Seq<FsNodeView>)
    ensures
        valid_fs_nodes(ns) <==> (forall|i: int|
            0 <= i < ns.len() ==> valid_fs_node(#[trigger] ns[i])),
    decreases ns.len(),
{
    if ns.len() > 0 {
        let rest = ns.subrange(1, ns.len() as int);
        lemma_valid_fs_nodes_elementwise(rest);
        if valid_fs_node(ns[0]) && valid_fs_nodes(rest) {
            assert forall|i: int| 0 <= i < ns.len() implies valid_fs_node(#[trigger] ns[i]) by {
                if 0 < i < ns.len() {
                    assert(ns[i] == rest[i - 1]);
                }
            }
        }
        if forall|i: int| 0 <= i < ns.len() ==> valid_fs_node(#[trigger] ns[i]) {
            assert forall|i: int| 0 <= i < rest.len() implies valid_fs_node(#[trigger] rest[i]) by {
                assert(rest[i] == ns[i + 1]);
            }
        }
    }
}

/// The bytes a tree adds to the data region at most: the stored form of
/// every file, duplicates included.
pub open spec fn node_stored_size(n: FsNodeView, gzip: bool) -> int
    decreases n,
{
    match n {
        FsNodeView::File { content, .. } => stored_bytes_of(content, gzip).len() as int,
        FsNodeView::Directory { children, .. } => nodes_stored_size(children, gzip),
    }
}

/// The stored bytes a sequence of trees holds, all told.
pub open spec fn nodes_stored_size(ns: Seq<FsNodeView>, gzip: bool) -> int
    decreases ns,
{
    if ns.len() == 0 {
        0
    } else {
        node_stored_size(ns[0], gzip) + nodes_stored_size(ns.subrange(1, ns.len() as int), gzip)
    }
}

/// Sizes are never negative.
pub proof fn lemma_stored_size_nonneg(n: FsNodeView, gzip: bool)
    ensures
        node_stored_size(n, gzip) >= 0,
    decreases n,
{
    match n {
        FsNodeView::File { .. } => {},
        FsNodeView::Directory { children, .. } => {
            lemma_nodes_stored_size_nonneg(children, gzip);
        },
    }
}

/// Sizes of sequences are never negative.
pub proof fn lemma_nodes_stored_size_nonneg(ns: Seq<FsNodeView>, gzip: bool)
    ensures
        nodes_stored_size(ns, gzip) >= 0,
    decreases ns,
{
    if ns.len() > 0 {
        lemma_stored_size_nonneg(ns[0], gzip);
        lemma_nodes_stored_size_nonneg(ns.subrange(1, ns.len() as int), gzip);
    }
}

/// Splitting the stored size at a prefix boundary.
pub proof fn lemma_nodes_stored_size_split(ns: Seq<FsNodeView>, i: int, gzip: bool)
    requires
        0 <= i < ns.len(),
    ensures
        nodes_stored_size(ns.subrange(0, i + 1), gzip) == nodes_stored_size(
            ns.subrange(0, i),
            gzip,
        ) + node_stored_size(ns[i], gzip),
        nodes_stored_size(ns.subrange(0, i), gzip) + nodes_stored_size(
            ns.subrange(i, ns.len() as int),
            gzip,
        ) == nodes_stored_size(ns, gzip),
    decreases ns.len(),
{
    lemma_nodes_stored_size_concat(ns.subrange(0, i), ns.subrange(i, ns.len() as int), gzip);
    lemma_nodes_stored_size_concat(
        ns.subrange(0, i + 1),
        ns.subrange(i + 1, ns.len() as int),
        gzip,
    );
    lemma_nodes_stored_size_concat(ns.subrange(0, i), ns.subrange(i, i + 1), gzip);
    assert(ns.subrange(0, i) + ns.subrange(i, ns.len() as int) =~= ns);
    assert(ns.subrange(0, i + 1) + ns.subrange(i + 1, ns.len() as int) =~= ns);
    assert(ns.subrange(0, i) + ns.subrange(i, i + 1) =~= ns.subrange(0, i + 1));
    assert(nodes_stored_size(ns.subrange(i, i + 1), gzip) == node_stored_size(ns[i], gzip)
        + nodes_stored_size(Seq::<FsNodeView>::empty(), gzip)) by {
        assert(ns.subrange(i, i + 1)[0] == ns[i]);
        assert(ns.subrange(i, i + 1).subrange(1, 1) =~= Seq::<FsNodeView>::empty());
    }
    lemma_nodes_stored_size_concat(ns.subrange(i + 1, ns.len() as int), Seq::empty(), gzip);
}

/// Stored size distributes over concatenation.
pub proof fn lemma_nodes_stored_size_concat(a: Seq<FsNodeView>, b: Seq<FsNodeView>, gzip: bool)
    ensures
        nodes_stored_size(a + b, gzip) == nodes_stored_size(a, gzip) + nodes_stored_size(b, gzip),
    decreases a.len(),
{
    if a.len() == 0 {
        assert(a + b =~= b);
    } else {
        assert((a + b).subrange(1, (a + b).len() as int) =~= a.subrange(1, a.len() as int) + b);
        assert((a + b)[0] == a[0]);
        lemma_nodes_stored_size_concat(a.subrange(1, a.len() as int), b, gzip);
    }
}

/// An entry denotes a tree node against a data region: names agree and are
/// valid, and each file's stored bytes carry its content.
pub open spec fn entry_matches_node(e: EntryView, n: FsNodeView, data: Seq<u8>) -> bool
    decreases e,
{
    match (e, n) {
        (
            EntryView::File { name, offset, size, compression },
            FsNodeView::File { name: node_name, content },
        ) => {
            &&& name == node_name
            &&& valid_name(name)
            &&& offset + size <= data.len()
            &&& stored_matches(
                data.subrange(offset as int, offset as int + size as int),
                content,
                compression,
            )
        },
        (
            EntryView::Directory { name, entries },
            FsNodeView::Directory { name: node_name, children },
        ) => {
            &&& name == node_name
            &&& valid_name(name)
            &&& entries_match_nodes(entries, children, data)
        },
        _ => false,
    }
}

/// The entries denote the nodes, pairwise and in order.
pub open spec fn entries_match_nodes(
    es: Seq<EntryView>,
    ns: Seq<FsNodeView>,
    data: Seq<u8>,
) -> bool
    decreases es,
{
    if es.len() == 0 {
        ns.len() == 0
    } else {
        &&& ns.len() == es.len()
        &&& entry_matches_node(es[0], ns[0], data)
        &&& entries_match_nodes(
            es.subrange(1, es.len() as int),
            ns.subrange(1, ns.len() as int),
            data,
        )
    }
}

/// Every file entry of the tree takes its location from the map, keyed by
/// its raw content: the shape behind deduplication.
pub open spec fn entry_follows(
    e: EntryView,
    n: FsNodeView,
    m: Map<Seq<u8>, (u32, u32, Compression)>,
) -> bool
    decreases e,
{
    match (e, n) {
        (
            EntryView::File { offset, size, compression, .. },
            FsNodeView::File { content, .. },
        ) => m.contains_key(content) && m[content] == (offset, size, compression),
        (
            EntryView::Directory { entries, .. },
            FsNodeView::Directory { children, .. },
        ) => entries.len() == children.len() && entries_follow(entries, children, m),
        _ => false,
    }
}

/// The entries follow the map, pairwise and in order.
pub open spec fn entries_follow(
    es: Seq<EntryView>,
    ns: Seq<FsNodeView>,
    m: Map<Seq<u8>, (u32, u32, Compression)>,
) -> bool
    decreases es,
{
    if es.len() == 0 {
        ns.len() == 0
    } else {
        &&& ns.len() == es.len()
        &&& entry_follows(es[0], ns[0], m)
        &&& entries_follow(es.subrange(1, es.len() as int), ns.subrange(1, ns.len() as int), m)
    }
}

/// Matching survives appending to the data region.
pub proof fn lemma_matches_data_extend(e: EntryView, n: FsNodeView, d1: Seq<u8>, d2: Seq<u8>)
    requires
        entry_matches_node(e, n, d1),
        d1.is_prefix_of(d2),
    ensures
        entry_matches_node(e, n, d2),
    decreases e,
{
    match (e, n) {
        (EntryView::File { offset, size, .. }, FsNodeView::File { .. }) => {
            assert(d2.subrange(offset as int, offset as int + size as int) =~= d1.subrange(
                offset as int,
                offset as int + size as int,
            ));
        },
        (EntryView::Directory { entries, .. }, FsNodeView::Directory { children, .. }) => {
            lemma_matches_nodes_data_extend(entries, children, d1, d2);
        },
        _ => {},
    }
}

/// Matching of sequences survives appending to the data region.
pub proof fn lemma_matches_nodes_data_extend(
    es: Seq<EntryView>,
    ns: Seq<FsNodeView>,
    d1: Seq<u8>,
    d2: Seq<u8>,
)
    requires
        entries_match_nodes(es, ns, d1),
        d1.is_prefix_of(d2),
    ensures
        entries_match_nodes(es, ns, d2),
    decreases es,
{
    if es.len() > 0 {
        lemma_matches_data_extend(es[0], ns[0], d1, d2);
        lemma_matches_nodes_data_extend(
            es.subrange(1, es.len() as int),
            ns.subrange(1, ns.len() as int),
            d1,
            d2,
        );
    }
}

/// Following survives extending the map.
pub proof fn lemma_follows_map_extend(
    e: EntryView,
    n: FsNodeView,
    m1: Map<Seq<u8>, (u32, u32, Compression)>,
    m2: Map<Seq<u8>, (u32, u32, Compression)>,
)
    requires
        entry_follows(e, n, m1),
        map_extends(m2, m1),
    ensures
        entry_follows(e, n, m2),
    decreases e,
{
    match (e, n) {
        (EntryView::Directory { entries, .. }, FsNodeView::Directory { children, .. }) => {
            lemma_follows_nodes_map_extend(entries, children, m1, m2);
        },
        _ => {},
    }
}

/// Following of sequences survives extending the map.
pub proof fn lemma_follows_nodes_map_extend(
    es: Seq<EntryView>,
    ns: Seq<FsNodeView>,
    m1: Map<Seq<u8>, (u32, u32, Compression)>,
    m2: Map<Seq<u8>, (u32, u32, Compression)>,
)
    requires
        entries_follow(es, ns, m1),
        map_extends(m2, m1),
    ensures
        entries_follow(es, ns, m2),
    decreases es,
{
    if es.len() > 0 {
        lemma_follows_map_extend(es[0], ns[0], m1, m2);
        lemma_follows_nodes_map_extend(
            es.subrange(1, es.len() as int),
            ns.subrange(1, ns.len() as int),
            m1,
            m2,
        );
    }
}

/// A matching entry over a valid node is encodable.
pub proof fn lemma_matches_encodable(e: EntryView, n: FsNodeView, data: Seq<u8>)
    requires
        entry_matches_node(e, n, data),
        valid_fs_node(n),
    ensures
        encodable_entry(e),
    decreases e,
{
    match (e, n) {
        (EntryView::File { name, .. }, FsNodeView::File { .. }) => {
            lemma_valid_name_utf8_len(name);
        },
        (EntryView::Directory { name, entries }, FsNodeView::Directory { children, .. }) => {
            lemma_valid_name_utf8_len(name);
            lemma_matches_nodes_encodable(entries, children, data);
        },
        _ => {},
    }
}

/// Matching entries over valid nodes are all encodable.
pub proof fn lemma_matches_nodes_encodable(es: Seq<EntryView>, ns: Seq<FsNodeView>, data: Seq<u8>)
    requires
        entries_match_nodes(es, ns, data),
        valid_fs_nodes(ns),
    ensures
        encodable_entries(es),
    decreases es,
{
    if es.len() > 0 {
        lemma_matches_encodable(es[0], ns[0], data);
        lemma_matches_nodes_encodable(
            es.subrange(1, es.len() as int),
            ns.subrange(1, ns.len() as int),
            data,
        );
    }
}

/// Matching extends to one more entry and node on the right.
pub proof fn lemma_matches_nodes_snoc(
    es: Seq<EntryView>,
    ns: Seq<FsNodeView>,
    e: EntryView,
    n: FsNodeView,
    data: Seq<u8>,
)
    requires
        entries_match_nodes(es, ns, data),
        entry_matches_node(e, n, data),
    ensures
        entries_match_nodes(es.push(e), ns.push(n), data),
    decreases es.len(),
{
    if es.len() == 0 {
        assert(es.push(e)[0] == e && ns.push(n)[0] == n);
        assert(es.push(e).subrange(1, 1) =~= Seq::<EntryView>::empty());
        assert(ns.push(n).subrange(1, 1) =~= Seq::<FsNodeView>::empty());
        assert(entries_match_nodes(
            Seq::<EntryView>::empty(),
            Seq::<FsNodeView>::empty(),
            data,
        ));
        assert(entries_match_nodes(es.push(e), ns.push(n), data));
    } else {
        assert(es.push(e)[0] == es[0] && ns.push(n)[0] == ns[0]);
        assert(es.push(e).subrange(1, es.push(e).len() as int) =~= es.subrange(
            1,
            es.len() as int,
        ).push(e));
        assert(ns.push(n).subrange(1, ns.push(n).len() as int) =~= ns.subrange(
            1,
            ns.len() as int,
        ).push(n));
        lemma_matches_nodes_snoc(
            es.subrange(1, es.len() as int),
            ns.subrange(1, ns.len() as int),
            e,
            n,
            data,
        );
        assert(entries_match_nodes(es.push(e), ns.push(n), data));
    }
}

/// Following extends to one more entry and node on the right.
pub proof fn lemma_follows_nodes_snoc(
    es: Seq<EntryView>,
    ns: Seq<FsNodeView>,
    e: EntryView,
    n: FsNodeView,
    m: Map<Seq<u8>, (u32, u32, Compression)>,
)
    requires
        entries_follow(es, ns, m),
        entry_follows(e, n, m),
    ensures
        entries_follow(es.push(e), ns.push(n), m),
    decreases es.len(),
{
    if es.len() == 0 {
        assert(es.push(e)[0] == e && ns.push(n)[0] == n);
        assert(es.push(e).subrange(1, 1) =~= Seq::<EntryView>::empty());
        assert(ns.push(n).subrange(1, 1) =~= Seq::<FsNodeView>::empty());
        assert(entries_follow(Seq::<EntryView>::empty(), Seq::<FsNodeView>::empty(), m));
        assert(entries_follow(es.push(e), ns.push(n), m));
    } else {
        assert(es.push(e)[0] == es[0] && ns.push(n)[0] == ns[0]);
        assert(es.push(e).subrange(1, es.push(e).len() as int) =~= es.subrange(
            1,
            es.len() as int,
        ).push(e));
        assert(ns.push(n).subrange(1, ns.push(n).len() as int) =~= ns.subrange(
            1,
            ns.len() as int,
        ).push(n));
        lemma_follows_nodes_snoc(
            es.subrange(1, es.len() as int),
            ns.subrange(1, ns.len() as int),
            e,
            n,
            m,
        );
        assert(entries_follow(es.push(e), ns.push(n), m));
    }
}

/// A printable ASCII character lies in the ASCII range.
proof fn lemma_graphic_char_ascii(c: char)
    requires
        33 <= c as u32 <= 126,
    ensures
        '\0' <= c <= '\u{7f}',
{
}

/// A valid name's UTF-8 encoding is one byte per character.
pub proof fn lemma_valid_name_utf8_len(name: Seq<char>)
    requires
        valid_name(name),
    ensures
        encode_utf8(name).len() == name.len(),
{
    assert forall|i: int| 0 <= i < name.len() implies '\0' <= #[trigger] name[i] <= '\u{7f}' by {
        assert(crate::utils::valid_name_char(name[i]));
        lemma_graphic_char_ascii(name[i]);
    }
    assert(is_ascii_chars(name));
    is_ascii_chars_encode_utf8(name);
}

/// Converts a length to the four-byte field, or reports that it does not
/// fit.
fn u32_from_usize(n: usize) -> (r: Result<u32, String>)
    ensures
        match r {
            Ok(v) => n <= 0xFFFFFFFF && v == n as u32,
            Err(m) => n > 0xFFFFFFFF && m@ == "length does not fit in a 32-bit field"@,
        },
{
    if n as u64 <= 0xFFFFFFFFu64 {
        Ok(n as u32)
    } else {
        Err(String::from_str("length does not fit in a 32-bit field"))
    }
}

/// A failure of the packing walk: which rule broke, and the context chain
/// the raised error carries.
pub enum PackFailure {
    BadName { context: Seq<Seq<char>> },
    TooLarge { context: Seq<Seq<char>> },
}

/// The error a packing failure is raised as: an invalid name becomes
/// `InvalidEntryName`, an offset or size beyond the 32-bit fields becomes
/// `ErrorWritingMetadata`, each carrying the failure's context.
pub open spec fn pack_failure_matches(e: ErrorType, f: PackFailure) -> bool {
    match f {
        PackFailure::BadName { context } => e matches ErrorType::InvalidEntryName(c) && c@
            == context,
        PackFailure::TooLarge { context } => e matches ErrorType::ErrorWritingMetadata(c, m) && c@
            == context && m@ == "length does not fit in a 32-bit field"@,
    }
}

/// The name of a tree node, in the model.
pub open spec fn spec_node_name(n: FsNodeView) -> Seq<char> {
    match n {
        FsNodeView::Directory { name, .. } => name,
        FsNodeView::File { name, .. } => name,
    }
}

/// The packing walk as a function: from one tree node, the store map, the
/// data region so far and the compression setting, to the entry built, the
/// new store map and the new data region - or the first failure, with the
/// context it carries. A file whose content the store already holds reuses
/// the stored location and changes nothing; a first-seen content is stored
/// (compressed when asked) at the current end of the region.
pub open spec fn spec_create_entry(
    n: FsNodeView,
    m: Map<Seq<u8>, (u32, u32, Compression)>,
    d: Seq<u8>,
    gzip: bool,
    ctx: Seq<Seq<char>>,
) -> Result<(EntryView, Map<Seq<u8>, (u32, u32, Compression)>, Seq<u8>), PackFailure>
    decreases n,
{
    match n {
        FsNodeView::File { name, content } => {
            if !valid_name(name) {
                Err(PackFailure::BadName { context: ctx })
            } else if m.contains_key(content) {
                Ok(
                    (
                        EntryView::File {
                            name,
                            offset: m[content].0,
                            size: m[content].1,
                            compression: m[content].2,
                        },
                        m,
                        d,
                    ),
                )
            } else {
                let stored = stored_bytes_of(content, gzip);
                let flag = if gzip {
                    Compression::Gzip
                } else {
                    Compression::Uncompressed
                };
                if d.len() > 0xFFFFFFFF {
                    Err(PackFailure::TooLarge { context: ctx })
                } else if stored.len() > 0xFFFFFFFF {
                    Err(PackFailure::TooLarge { context: ctx })
                } else {
                    Ok(
                        (
                            EntryView::File {
                                name,
                                offset: d.len() as u32,
                                size: stored.len() as u32,
                                compression: flag,
                            },
                            m.insert(content, (d.len() as u32, stored.len() as u32, flag)),
                            d + stored,
                        ),
                    )
                }
            }
        },
        FsNodeView::Directory { name, children } => {
            if !valid_name(name) {
                Err(PackFailure::BadName { context: ctx })
            } else {
                match spec_create_entries(children, m, d, gzip, ctx) {
                    Ok((es, m2, d2)) => Ok((EntryView::Directory { name, entries: es }, m2, d2)),
                    Err(f) => Err(f),
                }
            }
        },
    }
}

/// The packing walk over a sequence of sibling nodes, left to right,
/// threading the store map and the data region; each child's context is the
/// parent's extended by the child's own name.
pub open spec fn spec_create_entries(
    ns: Seq<FsNodeView>,
    m: Map<Seq<u8>, (u32, u32, Compression)>,
    d: Seq<u8>,
    gzip: bool,
    ctx: Seq<Seq<char>>,
) -> Result<(Seq<EntryView>, Map<Seq<u8>, (u32, u32, Compression)>, Seq<u8>), PackFailure>
    decreases ns,
{
    if ns.len() == 0 {
        Ok((Seq::empty(), m, d))
    } else {
        match spec_create_entry(ns[0], m, d, gzip, ctx.push(spec_node_name(ns[0]))) {
            Err(f) => Err(f),
            Ok((e, m1, d1)) => match spec_create_entries(
                ns.subrange(1, ns.len() as int),
                m1,
                d1,
                gzip,
                ctx,
            ) {
                Err(f) => Err(f),
                Ok((rest, m2, d2)) => Ok((seq![e] + rest, m2, d2)),
            },
        }
    }
}

/// Builds the entry for one tree node: directories recurse over their
/// children; a file's content is deduplicated through the store, compressed
/// when asked, and appended to the data region the first time it is seen.
/// The result, the store and the data region are exactly what
/// [`spec_create_entry`] says for the inputs.
#[verifier::loop_isolation(false)]
pub fn create_entry(
    node: &FsNode,
    store: &mut Vec<StoreRecord>,
    data: &mut Vec<u8>,
    gzip: bool,
    eval_context: &EvalContext,
) -> (r: CatResult<Entry>)
    requires
        store_ok(old(store)@, old(data)@),
    ensures
        store_ok(final(store)@, final(data)@),
        old(data)@.is_prefix_of(final(data)@),
        map_extends(store_map(final(store)@), store_map(old(store)@)),
        final(data)@.len() <= old(data)@.len() + node_stored_size(node@, gzip),
        match r {
            Ok(e) => {
                &&& spec_create_entry(
                    node@,
                    store_map(old(store)@),
                    old(data)@,
                    gzip,
                    eval_context@,
                ) == Ok::<_, PackFailure>((e@, store_map(final(store)@), final(data)@))
                &&& entry_matches_node(e@, node@, final(data)@)
                &&& entry_follows(e@, node@, store_map(final(store)@))
            },
            Err(err) => spec_create_entry(
                node@,
                store_map(old(store)@),
                old(data)@,
                gzip,
                eval_context@,
            ) matches Err(f) && pack_failure_matches(err.error_type, f),
        },
        (valid_fs_node(node@) && old(data)@.len() + node_stored_size(node@, gzip) <= 0xFFFFFFFF)
            ==> r is Ok,
    decreases node@,
{
    proof {
        lemma_stored_size_nonneg(node@, gzip);
    }
    let ghost m0 = store_map(old(store)@);
    let ghost d0 = old(data)@;
    let ghost sctx = eval_context@;
    match node {
        FsNode::Directory { name, children } => {
            proof {
                crate::metadata::lemma_fs_nodes_view(children@);
            }
            let validated = match validate_name(name.clone(), eval_context) {
                Ok(v) => v,
                Err(e) => {
                    return Err(e);
                },
            };
            let ghost views = fs_nodes_view(children@);
            let n = children.len();
            let mut entries: Vec<Entry> = Vec::new();
            proof {
                assert(views.subrange(0, 0) =~= Seq::<FsNodeView>::empty());
                assert(views.subrange(0, n as int) =~= views);
                assert(entries_view(entries@) =~= Seq::<EntryView>::empty());
                lemma_nodes_stored_size_nonneg(views, gzip);
                match spec_create_entries(views, m0, d0, gzip, sctx) {
                    Ok((rest, m_end, d_end)) => {
                        assert(Seq::<EntryView>::empty() + rest =~= rest);
                    },
                    Err(_) => {},
                }
            }
            for i in 0..n
                invariant
                    n == children.len(),
                    views.len() == n,
                    entries@.len() == i,
                    store_ok(store@, data@),
                    old(data)@.is_prefix_of(data@),
                    map_extends(store_map(store@), store_map(old(store)@)),
                    entries_match_nodes(entries_view(entries@), views.subrange(0, i as int), data@),
                    entries_follow(
                        entries_view(entries@),
                        views.subrange(0, i as int),
                        store_map(store@),
                    ),
                    data@.len() <= old(data)@.len() + nodes_stored_size(
                        views.subrange(0, i as int),
                        gzip,
                    ),
                    match spec_create_entries(
                        views.subrange(i as int, n as int),
                        store_map(store@),
                        data@,
                        gzip,
                        sctx,
                    ) {
                        Ok((rest, m_end, d_end)) => spec_create_entries(views, m0, d0, gzip, sctx)
                            == Ok::<_, PackFailure>(
                            (entries_view(entries@) + rest, m_end, d_end),
                        ),
                        Err(f) => spec_create_entries(views, m0, d0, gzip, sctx) == Err::<
                            (Seq<EntryView>, Map<Seq<u8>, (u32, u32, Compression)>, Seq<u8>),
                            _,
                        >(f),
                    },
            {
                proof {
                    crate::metadata::lemma_fs_nodes_view(children@);
                    lemma_valid_fs_nodes_elementwise(views);
                    lemma_nodes_stored_size_split(views, i as int, gzip);
                    lemma_nodes_stored_size_nonneg(views.subrange(i as int, n as int), gzip);
                    lemma_nodes_stored_size_nonneg(views.subrange(i as int + 1, n as int), gzip);
                    lemma_nodes_stored_size_split(views.subrange(i as int, n as int), 0, gzip);
                    assert(views.subrange(i as int, n as int).subrange(1, n as int - i as int)
                        =~= views.subrange(i as int + 1, n as int));
                    assert(views.subrange(i as int, n as int)[0] == views[i as int]);
                    let nv = node@;
                    assert(nv->Directory_children == views);
                    assert(decreases_to!(nv => nv->Directory_children));
                    assert(decreases_to!(views => views[i as int]));
                    assert(views[i as int] == children@[i as int]@);
                }
                let ghost store_before = store@;
                let ghost data_before = data@;
                let ghost entries_before = entries@;
                let child_context = eval_context.push(node_name(&children[i]).clone());
                proof {
                    assert(child_context@ =~= sctx.push(spec_node_name(views[i as int])));
                }
                let child = match create_entry(&children[i], store, data, gzip, &child_context) {
                    Ok(e) => e,
                    Err(e) => {
                        proof {
                            let suffix = views.subrange(i as int, n as int);
                            assert(suffix[0] == views[i as int]);
                            assert(suffix.subrange(1, suffix.len() as int) =~= views.subrange(
                                i as int + 1,
                                n as int,
                            ));
                        }
                        return Err(e);
                    },
                };
                entries.push(child);
                proof {
                    let cs = entries@;
                    assert(cs.drop_last() =~= entries_before);
                    assert(entries_view(cs) == entries_view(cs.subrange(0, cs.len() - 1)).push(
                        entry_view(cs[cs.len() - 1]),
                    ));
                    assert(entries_view(cs) == entries_view(entries_before).push(child@));
                    // earlier entries still match: the data region only grew
                    lemma_matches_nodes_data_extend(
                        entries_view(entries_before),
                        views.subrange(0, i as int),
                        data_before,
                        data@,
                    );
                    lemma_follows_nodes_map_extend(
                        entries_view(entries_before),
                        views.subrange(0, i as int),
                        store_map(store_before),
                        store_map(store@),
                    );
                    lemma_matches_nodes_snoc(
                        entries_view(entries_before),
                        views.subrange(0, i as int),
                        child@,
                        views[i as int],
                        data@,
                    );
                    lemma_follows_nodes_snoc(
                        entries_view(entries_before),
                        views.subrange(0, i as int),
                        child@,
                        views[i as int],
                        store_map(store@),
                    );
                    assert(views.subrange(0, i as int).push(views[i as int]) =~= views.subrange(
                        0,
                        i as int + 1,
                    ));
                    let suffix = views.subrange(i as int, n as int);
                    assert(suffix[0] == views[i as int]);
                    assert(suffix.subrange(1, suffix.len() as int) =~= views.subrange(
                        i as int + 1,
                        n as int,
                    ));
                    match spec_create_entries(
                        views.subrange(i as int + 1, n as int),
                        store_map(store@),
                        data@,
                        gzip,
                        sctx,
                    ) {
                        Ok((rest2, m_end, d_end)) => {
                            assert(entries_view(entries_before) + (seq![child@] + rest2)
                                =~= entries_view(cs) + rest2);
                        },
                        Err(_) => {},
                    }
                }
            }
            proof {
                assert(views.subrange(0, n as int) =~= views);
                assert(views.subrange(n as int, n as int) =~= Seq::<FsNodeView>::empty());
                assert(entries_view(entries@) + Seq::<EntryView>::empty() =~= entries_view(
                    entries@,
                ));
            }
            Ok(Entry::Directory { name: validated, entries })
        },
        FsNode::File { name, content } => {
            let validated = match validate_name(name.clone(), eval_context) {
                Ok(v) => v,
                Err(e) => {
                    return Err(e);
                },
            };
            let digest = content_digest(content.as_slice());
            let n = store.len();
            for i in 0..n
                invariant
                    n == store@.len(),
                    store@ == old(store)@,
                    data@ == old(data)@,
                    digest@ == hex_of(sha256_of(content@)),
                    forall|j: int|
                        0 <= j < i ==> !(#[trigger] store@[j].digest@ == digest@
                            && store@[j].content@ == content@),
            {
                if digest == store[i].digest && bytes_equal(
                    store[i].content.as_slice(),
                    content.as_slice(),
                ) {
                    let entry = Entry::File {
                        name: validated,
                        offset: store[i].offset,
                        size: store[i].size,
                        compression: store[i].compression,
                    };
                    proof {
                        lemma_store_map_dom(store@);
                        assert(store@[i as int].content@ == content@);
                        assert(store_map(store@).contains_key(content@));
                        lemma_store_map_loc_at(store@, i as int);
                        assert(record_ok(store@[i as int], data@));
                        assert(entry_matches_node(entry@, node@, data@));
                        assert(entry_follows(entry@, node@, store_map(store@)));
                        lemma_stored_size_nonneg(node@, gzip);
                    }
                    return Ok(entry);
                }
            }
            proof {
                assert forall|j: int| 0 <= j < store@.len() implies store@[j].content@
                    != content@ by {
                    if store@[j].content@ == content@ {
                        assert(store@[j].digest@ == hex_of(sha256_of(store@[j].content@)));
                        assert(store@[j].digest@ == digest@);
                    }
                }
                lemma_store_map_dom(store@);
                assert(!store_map(store@).contains_key(content@));
            }
            let compression = if gzip {
                Compression::Gzip
            } else {
                Compression::Uncompressed
            };
            let mut stored: Vec<u8> = if gzip {
                gzip_compress(content.as_slice())
            } else {
                vstd::slice::slice_to_vec(content.as_slice())
            };
            proof {
                assert(stored@ == stored_bytes_of(content@, gzip));
                assert(node_stored_size(node@, gzip) == stored@.len());
            }
            let offset = match wrap_context(
                u32_from_usize(data.len()),
                eval_context.clone(),
                MetaErrorKind::WritingMetadata,
            ) {
                Ok(v) => v,
                Err(e) => {
                    return Err(e);
                },
            };
            let size = match wrap_context(
                u32_from_usize(stored.len()),
                eval_context.clone(),
                MetaErrorKind::WritingMetadata,
            ) {
                Ok(v) => v,
                Err(e) => {
                    return Err(e);
                },
            };
            let ghost stored_bytes = stored@;
            let ghost data_before = data@;
            let ghost store_before = store@;
            data.append(&mut stored);
            let record = StoreRecord {
                digest,
                content: vstd::slice::slice_to_vec(content.as_slice()),
                offset,
                size,
                compression,
            };
            store.push(record);
            let entry = Entry::File { name: validated, offset, size, compression };
            proof {
                assert(data@.subrange(offset as int, offset as int + size as int)
                    =~= stored_bytes);
                assert(store@.drop_last() =~= store_before);
                assert(record_ok(store@[store@.len() - 1], data@));
                assert forall|j: int| 0 <= j < store@.len() implies record_ok(
                    #[trigger] store@[j],
                    data@,
                ) by {
                    if j < store@.len() - 1 {
                        assert(store@[j] == store_before[j]);
                        assert(record_ok(store_before[j], data_before));
                        let r = store_before[j];
                        assert(data@.subrange(r.offset as int, r.offset as int + r.size as int)
                            =~= data_before.subrange(
                            r.offset as int,
                            r.offset as int + r.size as int,
                        ));
                    }
                }
                assert forall|a: int, b: int| 0 <= a < b < store@.len() implies store@[a].content@
                    != store@[b].content@ by {
                    if b < store@.len() - 1 {
                        assert(store@[a] == store_before[a] && store@[b] == store_before[b]);
                    } else {
                        assert(store@[a] == store_before[a]);
                        assert(store@[b].content@ == content@);
                    }
                }
                assert(store_ok(store@, data@));
                assert(store_map(store@) == store_map(store_before).insert(
                    content@,
                    (offset, size, compression),
                ));
                assert forall|k: Seq<u8>| #[trigger] store_map(store_before).contains_key(
                    k,
                ) implies store_map(store@).contains_key(k) && store_map(store@)[k] == store_map(
                    store_before,
                )[k] by {
                    assert(k != content@);
                }
                assert(map_extends(store_map(store@), store_map(store_before)));
                assert(old(data)@.is_prefix_of(data@)) by {
                    assert(data@.subrange(0, data_before.len() as int) =~= data_before);
                }
                assert(entry_matches_node(entry@, node@, data@));
                assert(entry_follows(entry@, node@, store_map(store@)));
                assert(data@ =~= d0 + stored_bytes);
            }
            Ok(entry)
        },
    }
}

/// The name of a tree node.
fn node_name(node: &FsNode) -> (r: &String)
    ensures
        r@ == match node@ {
            FsNodeView::Directory { name, .. } => name,
            FsNodeView::File { name, .. } => name,
        },
{
    match node {
        FsNode::Directory { name, .. } => name,
        FsNode::File { name, .. } => name,
    }
}

/// The node a path of child indices leads to, descending one directory per
/// step; the last index may land on a file or a directory.
pub open spec fn node_at(ns: Seq<FsNodeView>, path: Seq<int>) -> Option<FsNodeView>
    decreases path.len(),
{
    if path.len() == 0 {
        None
    } else {
        let i = path[0];
        if 0 <= i < ns.len() {
            if path.len() == 1 {
                Some(ns[i])
            } else {
                match ns[i] {
                    FsNodeView::Directory { children, .. } => node_at(
                        children,
                        path.subrange(1, path.len() as int),
                    ),
                    FsNodeView::File { .. } => None,
                }
            }
        } else {
            None
        }
    }
}

/// The entry a path of child indices leads to.
pub open spec fn entry_at(es: Seq<EntryView>, path: Seq<int>) -> Option<EntryView>
    decreases path.len(),
{
    if path.len() == 0 {
        None
    } else {
        let i = path[0];
        if 0 <= i < es.len() {
            if path.len() == 1 {
                Some(es[i])
            } else {
                match es[i] {
                    EntryView::Directory { entries, .. } => entry_at(
                        entries,
                        path.subrange(1, path.len() as int),
                    ),
                    EntryView::File { .. } => None,
                }
            }
        } else {
            None
        }
    }
}

/// Following holds pairwise at every index.
pub proof fn lemma_follows_at_index(
    es: Seq<EntryView>,
    ns: Seq<FsNodeView>,
    m: Map<Seq<u8>, (u32, u32, Compression)>,
    i: int,
)
    requires
        entries_follow(es, ns, m),
        0 <= i < es.len(),
    ensures
        ns.len() == es.len(),
        entry_follows(es[i], ns[i], m),
    decreases es.len(),
{
    if i > 0 {
        lemma_follows_at_index(
            es.subrange(1, es.len() as int),
            ns.subrange(1, ns.len() as int),
            m,
            i - 1,
        );
        assert(es.subrange(1, es.len() as int)[i - 1] == es[i]);
        assert(ns.subrange(1, ns.len() as int)[i - 1] == ns[i]);
    }
}

/// Down any path that reaches a file, the entry there takes its location
/// from the map, keyed by the file's content.
pub proof fn lemma_follows_at(
    es: Seq<EntryView>,
    ns: Seq<FsNodeView>,
    m: Map<Seq<u8>, (u32, u32, Compression)>,
    path: Seq<int>,
)
    requires
        entries_follow(es, ns, m),
        node_at(ns, path) matches Some(n) && n is File,
    ensures
        match (entry_at(es, path), node_at(ns, path)) {
            (
                Some(EntryView::File { offset, size, compression, .. }),
                Some(FsNodeView::File { content, .. }),
            ) => m.contains_key(content) && m[content] == (offset, size, compression),
            _ => false,
        },
    decreases path.len(),
{
    let i = path[0];
    lemma_follows_at_index(es, ns, m, i);
    if path.len() > 1 {
        match (es[i], ns[i]) {
            (EntryView::Directory { entries, .. }, FsNodeView::Directory { children, .. }) => {
                lemma_follows_at(entries, children, m, path.subrange(1, path.len() as int));
            },
            _ => {},
        }
    }
}

/// Deduplication: wherever two files of the packed tree hold byte-identical
/// content, their entries reference one shared offset, size and compression
/// in the data region, however the two files are named or nested.
pub proof fn lemma_dedup_shared_location(
    es: Seq<EntryView>,
    ns: Seq<FsNodeView>,
    m: Map<Seq<u8>, (u32, u32, Compression)>,
    p1: Seq<int>,
    p2: Seq<int>,
)
    requires
        entries_follow(es, ns, m),
        match (node_at(ns, p1), node_at(ns, p2)) {
            (
                Some(FsNodeView::File { content: c1, .. }),
                Some(FsNodeView::File { content: c2, .. }),
            ) => c1 == c2,
            _ => false,
        },
    ensures
        match (entry_at(es, p1), entry_at(es, p2)) {
            (
                Some(EntryView::File { offset: o1, size: s1, compression: z1, .. }),
                Some(EntryView::File { offset: o2, size: s2, compression: z2, .. }),
            ) => o1 == o2 && s1 == s2 && z1 == z2,
            _ => false,
        },
{
    lemma_follows_at(es, ns, m, p1);
    lemma_follows_at(es, ns, m, p2);
}

/// The shape of a produced archive: the magic, a version-1 header whose
/// entries denote the packed root's children against the data region, and
/// the data region itself, with every file entry drawing its location from
/// one deduplication map.
pub open spec fn pack_shape(
    root: FsNodeView,
    archive: Seq<u8>,
    h: HeaderView,
    data: Seq<u8>,
) -> bool {
    &&& h.version == 1
    &&& encodable_header(h)
    &&& archive == crate::metadata::spec_magic() + spec_encode_header(h) + data
    &&& match root {
        FsNodeView::Directory { children, .. } => entries_match_nodes(h.entries, children, data)
            && (exists|m: Map<Seq<u8>, (u32, u32, Compression)>|
            entries_follow(h.entries, children, m)),
        FsNodeView::File { .. } => false,
    }
}

/// A successful pack produced an archive of the right shape for its input.
pub open spec fn pack_result_ok(root: FsNodeView, archive: Seq<u8>) -> bool {
    exists|h: HeaderView, data: Seq<u8>| pack_shape(root, archive, h, data)
}

/// The archive packing produces, as a function of the tree and the
/// compression setting: the magic, the encoded version-1 header built by the
/// walk, then the data region the walk filled. Meaningful where the walk
/// succeeds.
pub open spec fn spec_pack(root: FsNodeView, gzip: bool) -> Seq<u8> {
    match spec_create_entry(root, Map::empty(), Seq::empty(), gzip, seq!["Archiving"@]) {
        Ok((e, m, d)) => crate::metadata::spec_magic() + spec_encode_header(
            HeaderView { version: 1, entries: e->Directory_entries },
        ) + d,
        Err(_) => Seq::empty(),
    }
}

/// Packs a directory tree into a single archive: walks the tree building
/// entries over a deduplicating content store, then writes the magic, the
/// encoded version-1 header and the data region. On success the archive is
/// exactly [`spec_pack`] of the inputs — in particular, two calls on equal
/// trees and options produce byte-identical archives, and the data region
/// holds one stored copy per distinct file content, nothing more. On failure
/// the error is exactly the walk's or the serializer's first failure.
pub fn pack(root: &FsNode, context: &Context) -> (r: CatResult<Vec<u8>>)
    requires
        root@ is Directory,
    ensures
        match r {
            Ok(archive) => archive@ == spec_pack(root@, context.gzip) && pack_result_ok(
                root@,
                archive@,
            ),
            Err(err) => match spec_create_entry(
                root@,
                Map::empty(),
                Seq::empty(),
                context.gzip,
                seq!["Archiving"@],
            ) {
                Err(f) => pack_failure_matches(err.error_type, f),
                Ok((e, m, d)) => crate::serializing::spec_header_write_failure(
                    HeaderView { version: 1, entries: e->Directory_entries },
                    seq!["pack"@],
                ) matches Some(w) && crate::serializing::write_failure_matches(
                    err.error_type,
                    w,
                ),
            },
        },
        (valid_fs_node(root@) && node_stored_size(root@, context.gzip) <= 0xFFFFFFFF) ==> r is Ok,
{
    let mut store: Vec<StoreRecord> = Vec::new();
    let mut data: Vec<u8> = Vec::new();
    let walk_context = EvalContext::new(String::from_str("Archiving"));
    proof {
        assert(walk_context@ =~= seq!["Archiving"@]);
        assert(store_map(store@) =~= Map::<Seq<u8>, (u32, u32, Compression)>::empty());
    }
    let entry = match create_entry(root, &mut store, &mut data, context.gzip, &walk_context) {
        Ok(e) => e,
        Err(e) => {
            return Err(e);
        },
    };
    let header = match entry {
        Entry::Directory { name: _, entries } => Header { version: 1, entries },
        Entry::File { .. } => {
            // cannot happen: the root is a directory, and its entry matches it
            proof {
                assert(false);
            }
            return Err(ErrorType::UnknownArg.new());
        },
    };
    let mut archive: Vec<u8> = Vec::new();
    archive.push(0x43u8);
    archive.push(0x41u8);
    archive.push(0x54u8);
    archive.push(0x53u8);
    proof {
        assert(archive@ =~= crate::metadata::spec_magic());
        if valid_fs_node(root@) {
            lemma_matches_nodes_encodable(header@.entries, root@->Directory_children, data@);
        }
    }
    let serialize_context = EvalContext::new(String::from_str("pack"));
    proof {
        assert(serialize_context@ =~= seq!["pack"@]);
    }
    match header.serialize(&mut archive, &serialize_context) {
        Ok(_) => {},
        Err(e) => {
            return Err(e);
        },
    }
    let ghost header_view = header@;
    let ghost data_snapshot = data@;
    archive.append(&mut data);
    proof {
        assert(archive@ =~= crate::metadata::spec_magic() + spec_encode_header(header_view)
            + data_snapshot);
        assert(entries_match_nodes(
            header_view.entries,
            root@->Directory_children,
            data_snapshot,
        ));
        assert(entries_follow(
            header_view.entries,
            root@->Directory_children,
            store_map(store@),
        ));
        assert(pack_shape(root@, archive@, header_view, data_snapshot));
        assert(pack_result_ok(root@, archive@));
        assert(archive@ == spec_pack(root@, context.gzip));
    }
    Ok(archive)
}

} // verus!
