use crate::error::{CatResult, ErrorType};
use crate::metadata::{entries_view, Compression, Entry, EntryView, Header, HeaderView};
use crate::utils::{
    spec_be16, spec_be32, spec_encode_name, wrap_context, write_string, write_u16,
    write_u32, EvalContext, MetaErrorKind,
};
use vstd::prelude::*;
use vstd::string::StringExecFns;
use vstd::utf8::encode_utf8;

verus! {

/// The single sentinel byte a compression mode is encoded as.
pub open spec fn spec_encode_compression(c: Compression) -> Seq<u8> {
    match c {
        Compression::Gzip => seq![0xFEu8],
        Compression::Uncompressed => seq![0xFFu8],
    }
}

/// The wire encoding of one entry: a type tag, the name, then either the
/// file's offset, size and compression byte, or the directory's child count
/// followed by each child.
pub open spec fn spec_encode_entry(e: EntryView) -> Seq<u8>
    decreases e,
{
    match e {
        EntryView::File { name, offset, size, compression } => seq![0u8] + spec_encode_name(name)
            + spec_be32(offset) + spec_be32(size) + spec_encode_compression(compression),
        EntryView::Directory { name, entries } => seq![1u8] + spec_encode_name(name) + spec_be16(
            entries.len() as u16,
        ) + spec_encode_entries(entries),
    }
}

/// The concatenated encodings of a sequence of entries, in order.
pub open spec fn spec_encode_entries(es: Seq<EntryView>) -> Seq<u8>
    decreases es,
{
    if es.len() == 0 {
        Seq::empty()
    } else {
        spec_encode_entry(es[0]) + spec_encode_entries(es.subrange(1, es.len() as int))
    }
}

/// The wire encoding of a header: the version byte, the top-level entry
/// count, then each top-level entry.
pub open spec fn spec_encode_header(h: HeaderView) -> Seq<u8> {
    seq![h.version] + spec_be16(h.entries.len() as u16) + spec_encode_entries(h.entries)
}

/// An entry the wire format can carry: every name fits the one-byte length
/// prefix, and every child count fits the two-byte count field.
pub open spec fn encodable_entry(e: EntryView) -> bool
    decreases e,
{
    match e {
        EntryView::File { name, .. } => encode_utf8(name).len() <= 255,
        EntryView::Directory { name, entries } => encode_utf8(name).len() <= 255 && entries.len()
            <= 65535 && encodable_entries(entries),
    }
}

/// All entries of the sequence are encodable.
pub open spec fn encodable_entries(es: Seq<EntryView>) -> bool
    decreases es,
{
    es.len() == 0 || (encodable_entry(es[0]) && encodable_entries(es.subrange(1, es.len() as int)))
}

/// A header the wire format can carry.
pub open spec fn encodable_header(h: HeaderView) -> bool {
    h.entries.len() <= 65535 && encodable_entries(h.entries)
}

/// A failure of wire serialization: which rule broke, and the context chain
/// the raised error carries.
pub enum WriteFailure {
    NameTooLong { context: Seq<Seq<char>> },
    CountTooLarge { context: Seq<Seq<char>> },
}

/// The error a serialization failure is raised as: a name beyond the length
/// byte becomes `InvalidEntryName`, a count beyond the two-byte field
/// becomes `ErrorWritingMetadata`, each carrying the failure's context.
pub open spec fn write_failure_matches(e: ErrorType, f: WriteFailure) -> bool {
    match f {
        WriteFailure::NameTooLong { context } => e matches ErrorType::InvalidEntryName(c) && c@
            == context,
        WriteFailure::CountTooLarge { context } => e matches ErrorType::ErrorWritingMetadata(
            c,
            m,
        ) && c@ == context && m@ == "length does not fit in a 16-bit field"@,
    }
}

/// The first failure serializing an entry meets, with the context its error
/// carries: the name field is checked first, then the child count, then each
/// child in order, under the context extended by this directory's name.
pub open spec fn spec_entry_write_failure(e: EntryView, ctx: Seq<Seq<char>>) -> Option<
    WriteFailure,
>
    decreases e,
{
    match e {
        EntryView::File { name, .. } => if encode_utf8(name).len() > 255 {
            Some(WriteFailure::NameTooLong { context: ctx.push("file name"@) })
        } else {
            None
        },
        EntryView::Directory { name, entries } => if encode_utf8(name).len() > 255 {
            Some(WriteFailure::NameTooLong { context: ctx.push("file name"@) })
        } else if entries.len() > 65535 {
            Some(WriteFailure::CountTooLarge { context: ctx.push("entry length"@) })
        } else {
            spec_entries_write_failure(entries, ctx.push(name))
        },
    }
}

/// The first failure among sibling entries, all serialized under one
/// context.
pub open spec fn spec_entries_write_failure(es: Seq<EntryView>, cctx: Seq<Seq<char>>) -> Option<
    WriteFailure,
>
    decreases es,
{
    if es.len() == 0 {
        None
    } else {
        match spec_entry_write_failure(es[0], cctx) {
            Option::Some(f) => Some(f),
            Option::None => spec_entries_write_failure(es.subrange(1, es.len() as int), cctx),
        }
    }
}

/// The first failure serializing a header meets: the top-level count is
/// checked first, then each entry under the context extended by `head`.
pub open spec fn spec_header_write_failure(h: HeaderView, ctx: Seq<Seq<char>>) -> Option<
    WriteFailure,
> {
    if h.entries.len() > 65535 {
        Some(WriteFailure::CountTooLarge { context: ctx.push("entries length"@) })
    } else {
        spec_entries_write_failure(h.entries, ctx.push("head"@))
    }
}

/// Serialization fails exactly where encodability fails.
pub proof fn lemma_write_failure_none(e: EntryView, ctx: Seq<Seq<char>>)
    ensures
        spec_entry_write_failure(e, ctx) is None <==> encodable_entry(e),
    decreases e,
{
    match e {
        EntryView::Directory { name, entries } => {
            lemma_entries_write_failure_none(entries, ctx.push(name));
        },
        _ => {},
    }
}

/// Serialization of a sequence fails exactly where encodability fails.
pub proof fn lemma_entries_write_failure_none(es: Seq<EntryView>, cctx: Seq<Seq<char>>)
    ensures
        spec_entries_write_failure(es, cctx) is None <==> encodable_entries(es),
    decreases es,
{
    if es.len() > 0 {
        lemma_write_failure_none(es[0], cctx);
        lemma_entries_write_failure_none(es.subrange(1, es.len() as int), cctx);
    }
}

/// Where every earlier sibling serializes cleanly, the first failing
/// sibling's failure is the sequence's.
pub proof fn lemma_entries_write_failure_at(es: Seq<EntryView>, cctx: Seq<Seq<char>>, i: int)
    requires
        0 <= i < es.len(),
        forall|j: int| 0 <= j < i ==> spec_entry_write_failure(#[trigger] es[j], cctx) is None,
        spec_entry_write_failure(es[i], cctx) is Some,
    ensures
        spec_entries_write_failure(es, cctx) == spec_entry_write_failure(es[i], cctx),
    decreases i,
{
    if i > 0 {
        let rest = es.subrange(1, es.len() as int);
        assert(rest[i - 1] == es[i]);
        assert forall|j: int| 0 <= j < i - 1 implies spec_entry_write_failure(
            #[trigger] rest[j],
            cctx,
        ) is None by {
            assert(rest[j] == es[j + 1]);
        }
        lemma_entries_write_failure_at(rest, cctx, i - 1);
    }
}

/// Appending an entry on the right extends the concatenated encoding on the
/// right.
pub proof fn lemma_encode_entries_snoc(es: Seq<EntryView>, e: EntryView)
    ensures
        spec_encode_entries(es.push(e)) == spec_encode_entries(es) + spec_encode_entry(e),
    decreases es.len(),
{
    let single = es.push(e);
    if es.len() == 0 {
        assert(single[0] == e);
        assert(single.subrange(1, single.len() as int) =~= Seq::<EntryView>::empty());
        assert(spec_encode_entries(Seq::<EntryView>::empty()) == Seq::<u8>::empty());
        assert(spec_encode_entries(single) == spec_encode_entry(e) + Seq::<u8>::empty());
        assert(spec_encode_entries(es) == Seq::<u8>::empty());
        assert(spec_encode_entries(es.push(e)) =~= spec_encode_entries(es) + spec_encode_entry(e));
    } else {
        let rest = es.subrange(1, es.len() as int);
        assert(single[0] == es[0]);
        assert(single.subrange(1, single.len() as int) =~= rest.push(e));
        lemma_encode_entries_snoc(rest, e);
        assert(spec_encode_entries(single) == spec_encode_entry(es[0]) + (spec_encode_entries(rest)
            + spec_encode_entry(e)));
        assert(spec_encode_entries(es) == spec_encode_entry(es[0]) + spec_encode_entries(rest));
        assert(spec_encode_entries(es.push(e)) =~= spec_encode_entries(es) + spec_encode_entry(e));
    }
}

/// A sequence of entries is encodable exactly when each of its entries is.
pub proof fn lemma_encodable_entries_elementwise(es: Seq<EntryView>)
    ensures
        encodable_entries(es) <==> (forall|i: int|
            0 <= i < es.len() ==> encodable_entry(#[trigger] es[i])),
    decreases es.len(),
{
    if es.len() > 0 {
        let rest = es.subrange(1, es.len() as int);
        lemma_encodable_entries_elementwise(rest);
        if encodable_entry(es[0]) && encodable_entries(rest) {
            assert forall|i: int| 0 <= i < es.len() implies encodable_entry(#[trigger] es[i]) by {
                if 0 < i < es.len() {
                    assert(es[i] == rest[i - 1]);
                }
            }
        }
        if forall|i: int| 0 <= i < es.len() ==> encodable_entry(#[trigger] es[i]) {
            assert forall|i: int| 0 <= i < rest.len() implies encodable_entry(
                #[trigger] rest[i],
            ) by {
                assert(rest[i] == es[i + 1]);
            }
        }
    }
}

/// Converts a count to the two-byte field, or reports that it does not fit.
fn u16_from_usize(n: usize) -> (r: Result<u16, String>)
    ensures
        match r {
            Ok(v) => n <= 65535 && v == n as u16,
            Err(m) => n > 65535 && m@ == "length does not fit in a 16-bit field"@,
        },
{
    if n <= 65535 {
        Ok(n as u16)
    } else {
        Err(String::from_str("length does not fit in a 16-bit field"))
    }
}

/// Wire serialization against an in-memory byte buffer.
pub trait CatSerializable {
    /// Appends this value's wire encoding to `buffer`, wrapping any failure
    /// with the given context.
    fn serialize(&self, buffer: &mut Vec<u8>, context: &EvalContext) -> CatResult<()>;
}

impl CatSerializable for Compression {
    fn serialize(&self, buffer: &mut Vec<u8>, context: &EvalContext) -> (r: CatResult<()>)
        ensures
            r is Ok,
            final(buffer)@ == old(buffer)@ + spec_encode_compression(*self),
    {
        match self {
            Compression::Gzip => buffer.push(0xFEu8),
            Compression::Uncompressed => buffer.push(0xFFu8),
        }
        proof {
            assert(buffer@ =~= old(buffer)@ + spec_encode_compression(*self));
        }
        Ok(())
    }
}

impl CatSerializable for Entry {
    #[verifier::loop_isolation(false)]
    fn serialize(&self, buffer: &mut Vec<u8>, context: &EvalContext) -> (r: CatResult<()>)
        ensures
            r is Ok <==> encodable_entry(self@),
            r is Ok ==> final(buffer)@ == old(buffer)@ + spec_encode_entry(self@),
            r matches Err(e) ==> (spec_entry_write_failure(self@, context@) matches Some(f)
                && write_failure_matches(e.error_type, f)),
        decreases self@,
    {
        match self {
            Entry::Directory { name, entries } => {
                proof {
                    crate::metadata::lemma_entries_view(entries@);
                }
                let ghost buf0 = buffer@;
                buffer.push(1u8);
                match write_string(name, buffer) {
                    Ok(_) => {},
                    Err(_) => {
                        let label = context.push(String::from_str("file name"));
                        proof {
                            assert(label@ =~= context@.push("file name"@));
                        }
                        return Err(ErrorType::InvalidEntryName(label).new());
                    },
                }
                let count_context = context.push(String::from_str("entry length"));
                proof {
                    assert(count_context@ =~= context@.push("entry length"@));
                }
                let count = match wrap_context(
                    u16_from_usize(entries.len()),
                    count_context,
                    MetaErrorKind::WritingMetadata,
                ) {
                    Ok(c) => c,
                    Err(e) => {
                        return Err(e);
                    },
                };
                write_u16(count, buffer);
                proof {
                    assert(buffer@ =~= buf0 + seq![1u8] + spec_encode_name(name@) + spec_be16(
                        count,
                    ));
                }
                let ghost before_children = buffer@;
                let ghost views = entries_view(entries@);
                proof {
                    crate::metadata::lemma_entries_view(entries@);
                }
                let n = entries.len();
                for i in 0..n
                    invariant
                        n == entries.len(),
                        views == entries_view(entries@),
                        views.len() == n,
                        count == n as u16,
                        n <= 65535,
                        before_children == buf0 + seq![1u8] + spec_encode_name(name@) + spec_be16(
                            count,
                        ),
                        buffer@ == before_children + spec_encode_entries(
                            views.subrange(0, i as int),
                        ),
                        encodable_entries(views.subrange(0, i as int)),
                {
                    proof {
                        crate::metadata::lemma_entries_view(entries@);
                    }
                    let child_context = context.push(name.clone());
                    proof {
                        assert(child_context@ =~= context@.push(name@));
                    }
                    let ghost buf_child = buffer@;
                    proof {
                        let ev = self@;
                        assert(ev->Directory_entries == views);
                        assert(decreases_to!(ev => ev->Directory_entries));
                        assert(decreases_to!(views => views[i as int]));
                        assert(views[i as int] == entries@[i as int]@);
                    }
                    match entries[i].serialize(buffer, &child_context) {
                        Ok(_) => {},
                        Err(e) => {
                            proof {
                                lemma_encodable_entries_elementwise(views);
                                assert(views[i as int] == crate::metadata::entry_view(
                                    entries@[i as int],
                                ));
                                assert(!encodable_entry(views[i as int]));
                                assert(!encodable_entries(views));
                                assert(self@ == (EntryView::Directory {
                                    name: name@,
                                    entries: views,
                                }));
                                let cctx = context@.push(name@);
                                let prefix = views.subrange(0, i as int);
                                lemma_encodable_entries_elementwise(prefix);
                                assert forall|j: int| 0 <= j < i implies spec_entry_write_failure(
                                    #[trigger] views[j],
                                    cctx,
                                ) is None by {
                                    assert(prefix[j] == views[j]);
                                    assert(encodable_entry(views[j]));
                                    lemma_write_failure_none(views[j], cctx);
                                }
                                lemma_write_failure_none(views[i as int], cctx);
                                lemma_entries_write_failure_at(views, cctx, i as int);
                            }
                            return Err(e);
                        },
                    }
                    proof {
                        let prefix = views.subrange(0, i as int);
                        let extended = views.subrange(0, i as int + 1);
                        assert(views[i as int] == crate::metadata::entry_view(
                            entries@[i as int],
                        ));
                        assert(extended =~= prefix.push(views[i as int]));
                        lemma_encode_entries_snoc(prefix, views[i as int]);
                        lemma_encodable_entries_elementwise(prefix);
                        lemma_encodable_entries_elementwise(extended);
                        assert(buffer@ =~= before_children + spec_encode_entries(extended));
                    }
                }
                proof {
                    assert(views.subrange(0, n as int) =~= views);
                    crate::metadata::lemma_entries_view(entries@);
                    assert(buffer@ =~= buf0 + spec_encode_entry(self@));
                }
                Ok(())
            },
            Entry::File { name, offset, size, compression } => {
                let ghost buf0 = buffer@;
                buffer.push(0u8);
                match write_string(name, buffer) {
                    Ok(_) => {},
                    Err(_) => {
                        let label = context.push(String::from_str("file name"));
                        proof {
                            assert(label@ =~= context@.push("file name"@));
                        }
                        return Err(ErrorType::InvalidEntryName(label).new());
                    },
                }
                write_u32(*offset, buffer);
                write_u32(*size, buffer);
                let compression_context = context.push(name.clone()).push(
                    String::from_str("compression"),
                );
                match compression.serialize(buffer, &compression_context) {
                    Ok(_) => {},
                    Err(e) => {
                        return Err(e);
                    },
                }
                proof {
                    assert(buffer@ =~= buf0 + spec_encode_entry(self@));
                }
                Ok(())
            },
        }
    }
}

impl CatSerializable for Header {
    #[verifier::loop_isolation(false)]
    fn serialize(&self, buffer: &mut Vec<u8>, context: &EvalContext) -> (r: CatResult<()>)
        ensures
            r is Ok <==> encodable_header(self@),
            r is Ok ==> final(buffer)@ == old(buffer)@ + spec_encode_header(self@),
            r matches Err(e) ==> (spec_header_write_failure(self@, context@) matches Some(f)
                && write_failure_matches(e.error_type, f)),
    {
        proof {
            crate::metadata::lemma_entries_view(self.entries@);
        }
        let ghost buf0 = buffer@;
        buffer.push(self.version);
        let count_context = context.push(String::from_str("entries length"));
        proof {
            assert(count_context@ =~= context@.push("entries length"@));
        }
        let count = match wrap_context(
            u16_from_usize(self.entries.len()),
            count_context,
            MetaErrorKind::WritingMetadata,
        ) {
            Ok(c) => c,
            Err(e) => {
                return Err(e);
            },
        };
        write_u16(count, buffer);
        proof {
            assert(buffer@ =~= buf0 + seq![self.version] + spec_be16(count));
        }
        let ghost before_children = buffer@;
        let ghost views = entries_view(self.entries@);
        proof {
            crate::metadata::lemma_entries_view(self.entries@);
        }
        let n = self.entries.len();
        for i in 0..n
            invariant
                n == self.entries.len(),
                views == entries_view(self.entries@),
                views.len() == n,
                count == n as u16,
                n <= 65535,
                before_children == buf0 + seq![self.version] + spec_be16(count),
                buffer@ == before_children + spec_encode_entries(views.subrange(0, i as int)),
                encodable_entries(views.subrange(0, i as int)),
        {
            proof {
                crate::metadata::lemma_entries_view(self.entries@);
            }
            let child_context = context.push(String::from_str("head"));
            proof {
                assert(child_context@ =~= context@.push("head"@));
            }
            match self.entries[i].serialize(buffer, &child_context) {
                Ok(_) => {},
                Err(e) => {
                    proof {
                        lemma_encodable_entries_elementwise(views);
                        assert(views[i as int] == crate::metadata::entry_view(
                            self.entries@[i as int],
                        ));
                        assert(!encodable_entry(views[i as int]));
                        assert(!encodable_entries(views));
                        let cctx = context@.push("head"@);
                        let prefix = views.subrange(0, i as int);
                        lemma_encodable_entries_elementwise(prefix);
                        assert forall|j: int| 0 <= j < i implies spec_entry_write_failure(
                            #[trigger] views[j],
                            cctx,
                        ) is None by {
                            assert(prefix[j] == views[j]);
                            assert(encodable_entry(views[j]));
                            lemma_write_failure_none(views[j], cctx);
                        }
                        lemma_write_failure_none(views[i as int], cctx);
                        lemma_entries_write_failure_at(views, cctx, i as int);
                    }
                    return Err(e);
                },
            }
            proof {
                let prefix = views.subrange(0, i as int);
                let extended = views.subrange(0, i as int + 1);
                assert(views[i as int] == crate::metadata::entry_view(
                    self.entries@[i as int],
                ));
                assert(extended =~= prefix.push(views[i as int]));
                lemma_encode_entries_snoc(prefix, views[i as int]);
                lemma_encodable_entries_elementwise(prefix);
                lemma_encodable_entries_elementwise(extended);
                assert(buffer@ =~= before_children + spec_encode_entries(extended));
            }
        }
        proof {
            assert(views.subrange(0, n as int) =~= views);
            crate::metadata::lemma_entries_view(self.entries@);
            assert(buffer@ =~= buf0 + spec_encode_header(self@));
        }
        Ok(())
    }
}

} // verus!
