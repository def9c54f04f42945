use crate::error::{CatResult, ErrorType};
use crate::metadata::{entries_view, entry_view, Compression, Entry, EntryView, Header, HeaderView};
use crate::serializing::{
    encodable_entries, encodable_entry, encodable_header, spec_encode_compression,
    spec_encode_entries, spec_encode_entry, spec_encode_header,
};
use crate::utils::{
    decimal_string, lemma_be16_value, lemma_be32_value, read_string, read_u16, read_u32, read_u8,
    spec_be16, spec_be32, spec_decimal, spec_encode_name, spec_read_string, spec_read_u16,
    spec_read_u32, spec_read_u8, wrap_context, EvalContext, MetaErrorKind,
};
use vstd::prelude::*;
use vstd::string::StringExecFns;
use vstd::utf8::{decode_utf8, encode_utf8, encode_utf8_decode_utf8, encode_utf8_valid_utf8, valid_utf8};

verus! {

/// A failure of wire decoding: which rule broke, and the context chain the
/// raised error carries.
pub enum DecodeFailure {
    ShortRead { context: Seq<Seq<char>> },
    BadTag { context: Seq<Seq<char>>, byte: u8 },
    BadCompression { context: Seq<Seq<char>> },
    WrongVersion,
}

/// The error a decoding failure is raised as: a short read becomes
/// `ErrorReadingMetadata`, an unknown type tag becomes `InvalidEntryType`
/// carrying the raw byte, an unknown compression byte becomes
/// `InvalidEntryData`, and a version other than 1 becomes `UnknownVersion`;
/// each carries the failure's context.
pub open spec fn decode_failure_matches(e: ErrorType, f: DecodeFailure) -> bool {
    match f {
        DecodeFailure::ShortRead { context } => e matches ErrorType::ErrorReadingMetadata(c, m)
            && c@ == context && m@ == "unexpected end of data"@,
        DecodeFailure::BadTag { context, byte } => e matches ErrorType::InvalidEntryType(c, b)
            && c@ == context && b == byte,
        DecodeFailure::BadCompression { context } => e matches ErrorType::InvalidEntryData(c)
            && c@ == context,
        DecodeFailure::WrongVersion => e is UnknownVersion,
    }
}

/// Decoding the compression byte at `pos`: only the two sentinel values are
/// accepted; failures carry the given context unextended.
pub open spec fn spec_decode_compression(data: Seq<u8>, pos: int, ctx: Seq<Seq<char>>) -> Result<
    (Compression, int),
    DecodeFailure,
> {
    match spec_read_u8(data, pos) {
        Option::None => Err(DecodeFailure::ShortRead { context: ctx }),
        Option::Some((b, p)) => if b == 0xFE {
            Ok((Compression::Gzip, p))
        } else if b == 0xFF {
            Ok((Compression::Uncompressed, p))
        } else {
            Err(DecodeFailure::BadCompression { context: ctx })
        },
    }
}

/// Decoding one entry at `pos`: the inverse reading of
/// [`crate::serializing::spec_encode_entry`]. Each field read extends the
/// context by the field's label, a directory's children extend it by the
/// directory's decoded name, and a file's compression byte by the file's
/// name and `compression`, so a failure names the whole path down to the
/// failing field.
pub open spec fn spec_decode_entry(data: Seq<u8>, pos: int, ctx: Seq<Seq<char>>) -> Result<
    (EntryView, int),
    DecodeFailure,
>
    decreases data.len() - pos, 0int,
    when 0 <= pos <= data.len()
{
    match spec_read_u8(data, pos) {
        Option::None => Err(DecodeFailure::ShortRead { context: ctx.push("entry type"@) }),
        Option::Some((tag, p1)) => if tag == 0 {
            match spec_read_string(data, p1) {
                Option::None => Err(DecodeFailure::ShortRead { context: ctx.push("file name"@) }),
                Option::Some((name, p2)) => match spec_read_u32(data, p2) {
                    Option::None => Err(
                        DecodeFailure::ShortRead { context: ctx.push("offset"@) },
                    ),
                    Option::Some((offset, p3)) => match spec_read_u32(data, p3) {
                        Option::None => Err(
                            DecodeFailure::ShortRead { context: ctx.push("size"@) },
                        ),
                        Option::Some((size, p4)) => match spec_decode_compression(
                            data,
                            p4,
                            ctx.push(name).push("compression"@),
                        ) {
                            Err(f) => Err(f),
                            Ok((compression, p5)) => Ok(
                                (EntryView::File { name, offset, size, compression }, p5),
                            ),
                        },
                    },
                },
            }
        } else if tag == 1 {
            match spec_read_string(data, p1) {
                Option::None => Err(
                    DecodeFailure::ShortRead { context: ctx.push("directory name"@) },
                ),
                Option::Some((name, p2)) => match spec_read_u16(data, p2) {
                    Option::None => Err(
                        DecodeFailure::ShortRead { context: ctx.push("directory name"@) },
                    ),
                    Option::Some((count, p3)) => match spec_decode_entries(
                        data,
                        p3,
                        count as int,
                        ctx.push(name),
                    ) {
                        Err(f) => Err(f),
                        Ok((children, p4)) => Ok(
                            (EntryView::Directory { name, entries: children }, p4),
                        ),
                    },
                },
            }
        } else {
            Err(DecodeFailure::BadTag { context: ctx, byte: tag })
        },
    }
}

/// Decoding `count` consecutive entries starting at `pos`, every one under
/// the same (already extended) context.
pub open spec fn spec_decode_entries(
    data: Seq<u8>,
    pos: int,
    count: int,
    cctx: Seq<Seq<char>>,
) -> Result<(Seq<EntryView>, int), DecodeFailure>
    decreases data.len() - pos, count + 1,
    when 0 <= pos <= data.len() && 0 <= count
{
    if count <= 0 {
        Ok((Seq::empty(), pos))
    } else {
        match spec_decode_entry(data, pos, cctx) {
            Err(f) => Err(f),
            // decoding always advances and stays in bounds; the guard only
            // carries the recursion's termination measure
            Ok((e, p1)) => if pos < p1 <= data.len() {
                match spec_decode_entries(data, p1, count - 1, cctx) {
                    Err(f) => Err(f),
                    Ok((rest, p2)) => Ok((seq![e] + rest, p2)),
                }
            } else {
                Err(DecodeFailure::ShortRead { context: cctx })
            },
        }
    }
}

/// Decoding `count` consecutive top-level entries, the one at position
/// `index` under the context extended by `index` rendered in decimal.
pub open spec fn spec_decode_header_entries(
    data: Seq<u8>,
    pos: int,
    count: int,
    index: int,
    ctx: Seq<Seq<char>>,
) -> Result<(Seq<EntryView>, int), DecodeFailure>
    decreases data.len() - pos, count + 1,
    when 0 <= pos <= data.len() && 0 <= count
{
    if count <= 0 {
        Ok((Seq::empty(), pos))
    } else {
        match spec_decode_entry(data, pos, ctx.push(spec_decimal(index))) {
            Err(f) => Err(f),
            // decoding always advances and stays in bounds; the guard only
            // carries the recursion's termination measure
            Ok((e, p1)) => if pos < p1 <= data.len() {
                match spec_decode_header_entries(data, p1, count - 1, index + 1, ctx) {
                    Err(f) => Err(f),
                    Ok((rest, p2)) => Ok((seq![e] + rest, p2)),
                }
            } else {
                Err(DecodeFailure::ShortRead { context: ctx })
            },
        }
    }
}

/// Decoding a header at `pos`: the version byte, which must be 1 before
/// anything further is read, the top-level count, then that many entries.
pub open spec fn spec_decode_header(data: Seq<u8>, pos: int, ctx: Seq<Seq<char>>) -> Result<
    (HeaderView, int),
    DecodeFailure,
> {
    match spec_read_u8(data, pos) {
        Option::None => Err(DecodeFailure::ShortRead { context: ctx.push("version"@) }),
        Option::Some((version, p1)) => if version != 1 {
            Err(DecodeFailure::WrongVersion)
        } else {
            match spec_read_u16(data, p1) {
                Option::None => Err(
                    DecodeFailure::ShortRead { context: ctx.push("entries length"@) },
                ),
                Option::Some((count, p2)) => match spec_decode_header_entries(
                    data,
                    p2,
                    count as int,
                    0,
                    ctx,
                ) {
                    Err(f) => Err(f),
                    Ok((entries, p3)) => Ok((HeaderView { version, entries }, p3)),
                },
            }
        },
    }
}

/// Wire deserialization from an in-memory byte buffer with a cursor.
pub trait CatDeserializable: Sized {
    /// Decodes one value at `*pos`, advancing the cursor past it; failures
    /// are wrapped with the given context, extended by the failing field.
    fn deserialize(data: &[u8], pos: &mut usize, context: &EvalContext) -> CatResult<Self>
        requires
            *old(pos) <= data@.len(),
    ;
}

impl CatDeserializable for Compression {
    fn deserialize(data: &[u8], pos: &mut usize, context: &EvalContext) -> (r: CatResult<
        Compression,
    >)
        ensures
            match r {
                Ok(c) => spec_decode_compression(data@, *old(pos) as int, context@) == Ok::<
                    _,
                    DecodeFailure,
                >((c, *final(pos) as int)) && *final(pos) == *old(pos) + 1,
                Err(e) => spec_decode_compression(data@, *old(pos) as int, context@) matches Err(f)
                    && decode_failure_matches(e.error_type, f),
            },
    {
        let value = match wrap_context(
            read_u8(data, pos),
            context.clone(),
            MetaErrorKind::ReadingMetadata,
        ) {
            Ok(v) => v,
            Err(e) => {
                return Err(e);
            },
        };
        if value == 0xFE {
            Ok(Compression::Gzip)
        } else if value == 0xFF {
            Ok(Compression::Uncompressed)
        } else {
            Err(ErrorType::InvalidEntryData(context.clone()).new())
        }
    }
}

impl CatDeserializable for Entry {
    #[verifier::loop_isolation(false)]
    fn deserialize(data: &[u8], pos: &mut usize, context: &EvalContext) -> (r: CatResult<Entry>)
        ensures
            match r {
                Ok(e) => spec_decode_entry(data@, *old(pos) as int, context@) == Ok::<
                    _,
                    DecodeFailure,
                >((e@, *final(pos) as int)) && *old(pos) < *final(pos) <= data@.len(),
                Err(err) => spec_decode_entry(data@, *old(pos) as int, context@) matches Err(f)
                    && decode_failure_matches(err.error_type, f),
            },
            match spec_read_u8(data@, *old(pos) as int) {
                Option::Some((tag, _)) => (tag != 0 && tag != 1) ==> (r matches Err(err)
                    && err.error_type matches ErrorType::InvalidEntryType(c, b) && b == tag && c@
                    == context@),
                Option::None => r is Err,
            },
        decreases data@.len() - *old(pos),
    {
        let tag_context = context.push(String::from_str("entry type"));
        proof {
            assert(tag_context@ =~= context@.push("entry type"@));
        }
        let tag = match wrap_context(
            read_u8(data, pos),
            tag_context,
            MetaErrorKind::ReadingMetadata,
        ) {
            Ok(v) => v,
            Err(e) => {
                return Err(e);
            },
        };
        if tag == 0 {
            let name_context = context.push(String::from_str("file name"));
            proof {
                assert(name_context@ =~= context@.push("file name"@));
            }
            let name = match wrap_context(
                read_string(data, pos),
                name_context,
                MetaErrorKind::ReadingMetadata,
            ) {
                Ok(v) => v,
                Err(e) => {
                    return Err(e);
                },
            };
            let offset_context = context.push(String::from_str("offset"));
            proof {
                assert(offset_context@ =~= context@.push("offset"@));
            }
            let offset = match wrap_context(
                read_u32(data, pos),
                offset_context,
                MetaErrorKind::ReadingMetadata,
            ) {
                Ok(v) => v,
                Err(e) => {
                    return Err(e);
                },
            };
            let size_context = context.push(String::from_str("size"));
            proof {
                assert(size_context@ =~= context@.push("size"@));
            }
            let size = match wrap_context(
                read_u32(data, pos),
                size_context,
                MetaErrorKind::ReadingMetadata,
            ) {
                Ok(v) => v,
                Err(e) => {
                    return Err(e);
                },
            };
            let compression_context = context.push(name.clone()).push(
                String::from_str("compression"),
            );
            proof {
                assert(compression_context@ =~= context@.push(name@).push("compression"@));
            }
            let compression = match Compression::deserialize(data, pos, &compression_context) {
                Ok(v) => v,
                Err(e) => {
                    return Err(e);
                },
            };
            Ok(Entry::File { name, offset, size, compression })
        } else if tag == 1 {
            let name_context = context.push(String::from_str("directory name"));
            proof {
                assert(name_context@ =~= context@.push("directory name"@));
            }
            let name = match wrap_context(
                read_string(data, pos),
                name_context,
                MetaErrorKind::ReadingMetadata,
            ) {
                Ok(v) => v,
                Err(e) => {
                    return Err(e);
                },
            };
            let count_context = context.push(String::from_str("directory name"));
            proof {
                assert(count_context@ =~= context@.push("directory name"@));
            }
            let count = match wrap_context(
                read_u16(data, pos),
                count_context,
                MetaErrorKind::ReadingMetadata,
            ) {
                Ok(v) => v,
                Err(e) => {
                    return Err(e);
                },
            };
            let ghost start_pos = *pos;
            let ghost cctx = context@.push(name@);
            let mut children: Vec<Entry> = Vec::new();
            proof {
                assert(entries_view(children@) == Seq::<EntryView>::empty());
                match spec_decode_entries(data@, start_pos as int, count as int, cctx) {
                    Ok((rest, p)) => {
                        assert(Seq::<EntryView>::empty() + rest =~= rest);
                    },
                    Err(_) => {},
                }
            }
            for i in 0..count
                invariant
                    children@.len() == i,
                    start_pos <= *pos <= data@.len(),
                    *old(pos) < *pos,
                    match spec_decode_entries(data@, *pos as int, count - i, cctx) {
                        Ok((rest, p)) => spec_decode_entries(
                            data@,
                            start_pos as int,
                            count as int,
                            cctx,
                        ) == Ok::<_, DecodeFailure>((entries_view(children@) + rest, p)),
                        Err(f) => spec_decode_entries(
                            data@,
                            start_pos as int,
                            count as int,
                            cctx,
                        ) == Err::<(Seq<EntryView>, int), _>(f),
                    },
            {
                let child_context = context.push(name.clone());
                proof {
                    assert(child_context@ =~= cctx);
                }
                let ghost pos_before = *pos;
                let ghost old_children = children@;
                let child = match Entry::deserialize(data, pos, &child_context) {
                    Ok(v) => v,
                    Err(e) => {
                        return Err(e);
                    },
                };
                children.push(child);
                proof {
                    let cs = children@;
                    assert(cs.drop_last() =~= old_children);
                    assert(entries_view(cs) == entries_view(cs.subrange(0, cs.len() - 1)).push(
                        entry_view(cs[cs.len() - 1]),
                    ));
                    assert(spec_decode_entry(data@, pos_before as int, cctx) == Ok::<
                        _,
                        DecodeFailure,
                    >((child@, *pos as int)));
                    match spec_decode_entries(data@, *pos as int, count - i - 1, cctx) {
                        Ok((rest2, p2)) => {
                            assert(entries_view(cs.drop_last()) + (seq![child@] + rest2)
                                =~= entries_view(cs) + rest2);
                        },
                        Err(_) => {},
                    }
                }
            }
            proof {
                assert(spec_decode_entries(data@, *pos as int, 0, cctx) == Ok::<
                    _,
                    DecodeFailure,
                >((Seq::<EntryView>::empty(), *pos as int)));
                assert(entries_view(children@) + Seq::<EntryView>::empty() =~= entries_view(
                    children@,
                ));
            }
            Ok(Entry::Directory { name, entries: children })
        } else {
            Err(ErrorType::InvalidEntryType(context.clone(), tag).new())
        }
    }
}

impl CatDeserializable for Header {
    #[verifier::loop_isolation(false)]
    fn deserialize(data: &[u8], pos: &mut usize, context: &EvalContext) -> (r: CatResult<Header>)
        ensures
            match r {
                Ok(h) => spec_decode_header(data@, *old(pos) as int, context@) == Ok::<
                    _,
                    DecodeFailure,
                >((h@, *final(pos) as int)) && *old(pos) < *final(pos) <= data@.len(),
                Err(err) => spec_decode_header(data@, *old(pos) as int, context@) matches Err(f)
                    && decode_failure_matches(err.error_type, f),
            },
            match spec_read_u8(data@, *old(pos) as int) {
                Option::Some((version, _)) => version != 1 ==> (r matches Err(err)
                    && err.error_type is UnknownVersion),
                Option::None => r is Err,
            },
    {
        let version_context = context.push(String::from_str("version"));
        proof {
            assert(version_context@ =~= context@.push("version"@));
        }
        let version = match wrap_context(
            read_u8(data, pos),
            version_context,
            MetaErrorKind::ReadingMetadata,
        ) {
            Ok(v) => v,
            Err(e) => {
                return Err(e);
            },
        };
        if version != 1 {
            return Err(ErrorType::UnknownVersion.new());
        }
        let count_context = context.push(String::from_str("entries length"));
        proof {
            assert(count_context@ =~= context@.push("entries length"@));
        }
        let count = match wrap_context(
            read_u16(data, pos),
            count_context,
            MetaErrorKind::ReadingMetadata,
        ) {
            Ok(v) => v,
            Err(e) => {
                return Err(e);
            },
        };
        let ghost start_pos = *pos;
        let mut entries: Vec<Entry> = Vec::new();
        proof {
            assert(entries_view(entries@) == Seq::<EntryView>::empty());
            match spec_decode_header_entries(data@, start_pos as int, count as int, 0, context@) {
                Ok((rest, p)) => {
                    assert(Seq::<EntryView>::empty() + rest =~= rest);
                },
                Err(_) => {},
            }
        }
        for i in 0..count
            invariant
                entries@.len() == i,
                start_pos <= *pos <= data@.len(),
                *old(pos) < *pos,
                match spec_decode_header_entries(
                    data@,
                    *pos as int,
                    count - i,
                    i as int,
                    context@,
                ) {
                    Ok((rest, p)) => spec_decode_header_entries(
                        data@,
                        start_pos as int,
                        count as int,
                        0,
                        context@,
                    ) == Ok::<_, DecodeFailure>((entries_view(entries@) + rest, p)),
                    Err(f) => spec_decode_header_entries(
                        data@,
                        start_pos as int,
                        count as int,
                        0,
                        context@,
                    ) == Err::<(Seq<EntryView>, int), _>(f),
                },
        {
            let child_context = context.push(decimal_string(i));
            proof {
                assert(child_context@ =~= context@.push(spec_decimal(i as int)));
            }
            let ghost pos_before = *pos;
            let ghost old_entries = entries@;
            let child = match Entry::deserialize(data, pos, &child_context) {
                Ok(v) => v,
                Err(e) => {
                    return Err(e);
                },
            };
            entries.push(child);
            proof {
                let cs = entries@;
                assert(cs.drop_last() =~= old_entries);
                assert(entries_view(cs) == entries_view(cs.subrange(0, cs.len() - 1)).push(
                    entry_view(cs[cs.len() - 1]),
                ));
                assert(spec_decode_entry(
                    data@,
                    pos_before as int,
                    context@.push(spec_decimal(i as int)),
                ) == Ok::<_, DecodeFailure>((child@, *pos as int)));
                match spec_decode_header_entries(
                    data@,
                    *pos as int,
                    count - i - 1,
                    i as int + 1,
                    context@,
                ) {
                    Ok((rest2, p2)) => {
                        assert(entries_view(cs.drop_last()) + (seq![child@] + rest2)
                            =~= entries_view(cs) + rest2);
                    },
                    Err(_) => {},
                }
            }
        }
        proof {
            assert(spec_decode_header_entries(data@, *pos as int, 0, count as int, context@)
                == Ok::<_, DecodeFailure>((Seq::<EntryView>::empty(), *pos as int)));
            assert(entries_view(entries@) + Seq::<EntryView>::empty() =~= entries_view(entries@));
        }
        Ok(Header { version, entries })
    }
}

/// An encoded entry occupies at least its fixed fields.
pub proof fn lemma_encode_entry_len(e: EntryView)
    ensures
        spec_encode_entry(e).len() >= 4,
{
    match e {
        EntryView::File { name, offset, size, compression } => {
            assert(spec_encode_entry(e).len() == 11 + encode_utf8(name).len());
        },
        EntryView::Directory { name, entries } => {
            assert(spec_encode_entry(e).len() == 4 + encode_utf8(name).len()
                + spec_encode_entries(entries).len());
        },
    }
}

/// Decoding the encoding of an encodable entry, placed at `pos` inside
/// `data`, yields that entry back and stops exactly after it, under any
/// context.
pub proof fn lemma_decode_encode_entry(data: Seq<u8>, pos: int, e: EntryView, ctx: Seq<Seq<char>>)
    requires
        encodable_entry(e),
        0 <= pos,
        pos + spec_encode_entry(e).len() <= data.len(),
        data.subrange(pos, pos + spec_encode_entry(e).len() as int) == spec_encode_entry(e),
    ensures
        spec_decode_entry(data, pos, ctx) == Ok::<_, DecodeFailure>(
            (e, pos + spec_encode_entry(e).len()),
        ),
    decreases e,
{
    let enc = spec_encode_entry(e);
    let len = enc.len() as int;
    assert forall|j: int| 0 <= j < len implies data[pos + j] == enc[j] by {
        assert(enc[j] == data.subrange(pos, pos + len)[j]);
    }
    match e {
        EntryView::File { name, offset, size, compression } => {
            let nb = encode_utf8(name);
            let m = nb.len() as int;
            encode_utf8_valid_utf8(name);
            encode_utf8_decode_utf8(name);
            assert(enc == seq![0u8] + spec_encode_name(name) + spec_be32(offset) + spec_be32(size)
                + spec_encode_compression(compression));
            assert(len == 11 + m);
            assert(enc[0] == 0u8);
            assert(spec_read_u8(data, pos) == Some((0u8, pos + 1)));
            assert(enc[1] == m as u8);
            assert forall|j: int| 0 <= j < m implies data.subrange(pos + 2, pos + 2 + m)[j]
                == nb[j] by {
                assert(data[pos + 2 + j] == enc[2 + j]);
                assert(enc[2 + j] == nb[j]);
            }
            assert(data.subrange(pos + 2, pos + 2 + m) =~= nb);
            assert(spec_read_string(data, pos + 1) == Some((name, pos + 2 + m)));
            let p2 = pos + 2 + m;
            lemma_be32_value(offset);
            lemma_be32_value(size);
            assert forall|j: int| 0 <= j < 4 implies data[p2 + j] == spec_be32(offset)[j] by {
                assert(data[p2 + j] == enc[2 + m + j]);
                assert(enc[2 + m + j] == spec_be32(offset)[j]);
            }
            assert(spec_read_u32(data, p2) == Some((offset, p2 + 4)));
            assert forall|j: int| 0 <= j < 4 implies data[p2 + 4 + j] == spec_be32(size)[j] by {
                assert(data[p2 + 4 + j] == enc[6 + m + j]);
                assert(enc[6 + m + j] == spec_be32(size)[j]);
            }
            assert(spec_read_u32(data, p2 + 4) == Some((size, p2 + 8)));
            assert(enc[10 + m] == spec_encode_compression(compression)[0]);
            assert(spec_decode_compression(data, p2 + 8, ctx.push(name).push("compression"@))
                == Ok::<_, DecodeFailure>((compression, p2 + 9)));
            assert(spec_decode_entry(data, pos, ctx) == Ok::<_, DecodeFailure>((e, pos + len)));
        },
        EntryView::Directory { name, entries } => {
            let nb = encode_utf8(name);
            let m = nb.len() as int;
            let count = entries.len() as u16;
            let ence = spec_encode_entries(entries);
            encode_utf8_valid_utf8(name);
            encode_utf8_decode_utf8(name);
            assert(enc == seq![1u8] + spec_encode_name(name) + spec_be16(count) + ence);
            assert(len == 4 + m + ence.len());
            assert(enc[0] == 1u8);
            assert(spec_read_u8(data, pos) == Some((1u8, pos + 1)));
            assert(enc[1] == m as u8);
            assert forall|j: int| 0 <= j < m implies data.subrange(pos + 2, pos + 2 + m)[j]
                == nb[j] by {
                assert(data[pos + 2 + j] == enc[2 + j]);
                assert(enc[2 + j] == nb[j]);
            }
            assert(data.subrange(pos + 2, pos + 2 + m) =~= nb);
            assert(spec_read_string(data, pos + 1) == Some((name, pos + 2 + m)));
            let p2 = pos + 2 + m;
            lemma_be16_value(count);
            assert(data[p2] == enc[2 + m] && enc[2 + m] == spec_be16(count)[0]);
            assert(data[p2 + 1] == enc[3 + m] && enc[3 + m] == spec_be16(count)[1]);
            assert(spec_read_u16(data, p2) == Some((count, p2 + 2)));
            let p3 = p2 + 2;
            assert forall|j: int| 0 <= j < ence.len() implies data.subrange(
                p3,
                p3 + ence.len() as int,
            )[j] == ence[j] by {
                assert(data[p3 + j] == enc[4 + m + j]);
                assert(enc[4 + m + j] == ence[j]);
            }
            assert(data.subrange(p3, p3 + ence.len() as int) =~= ence);
            lemma_decode_encode_entries(data, p3, entries, ctx.push(name));
            assert(count as int == entries.len());
            assert(spec_decode_entry(data, pos, ctx) == Ok::<_, DecodeFailure>((e, pos + len)));
        },
    }
}

/// Decoding the concatenated encodings of encodable entries yields them all
/// back, in order, under any context.
pub proof fn lemma_decode_encode_entries(
    data: Seq<u8>,
    pos: int,
    es: Seq<EntryView>,
    cctx: Seq<Seq<char>>,
)
    requires
        encodable_entries(es),
        0 <= pos,
        pos + spec_encode_entries(es).len() <= data.len(),
        data.subrange(pos, pos + spec_encode_entries(es).len() as int) == spec_encode_entries(es),
    ensures
        spec_decode_entries(data, pos, es.len() as int, cctx) == Ok::<_, DecodeFailure>(
            (es, pos + spec_encode_entries(es).len()),
        ),
    decreases es,
{
    let enc = spec_encode_entries(es);
    let len = enc.len() as int;
    assert forall|j: int| 0 <= j < len implies data[pos + j] == enc[j] by {
        assert(enc[j] == data.subrange(pos, pos + len)[j]);
    }
    if es.len() == 0 {
        assert(es =~= Seq::<EntryView>::empty());
        assert(spec_decode_entries(data, pos, 0, cctx) == Ok::<_, DecodeFailure>(
            (Seq::<EntryView>::empty(), pos),
        ));
    } else {
        let e0 = es[0];
        let rest = es.subrange(1, es.len() as int);
        let enc0 = spec_encode_entry(e0);
        let encr = spec_encode_entries(rest);
        assert(enc == enc0 + encr);
        assert forall|j: int| 0 <= j < enc0.len() implies data.subrange(
            pos,
            pos + enc0.len() as int,
        )[j] == enc0[j] by {
            assert(data[pos + j] == enc[j]);
            assert(enc[j] == enc0[j]);
        }
        assert(data.subrange(pos, pos + enc0.len() as int) =~= enc0);
        lemma_decode_encode_entry(data, pos, e0, cctx);
        lemma_encode_entry_len(e0);
        let p1 = pos + enc0.len() as int;
        assert forall|j: int| 0 <= j < encr.len() implies data.subrange(
            p1,
            p1 + encr.len() as int,
        )[j] == encr[j] by {
            assert(data[p1 + j] == enc[enc0.len() + j]);
            assert(enc[enc0.len() + j] == encr[j]);
        }
        assert(data.subrange(p1, p1 + encr.len() as int) =~= encr);
        lemma_decode_encode_entries(data, p1, rest, cctx);
        assert(seq![e0] + rest =~= es);
        assert(spec_decode_entries(data, pos, es.len() as int, cctx) == Ok::<_, DecodeFailure>(
            (es, pos + len),
        ));
    }
}

/// Decoding the concatenated encodings of encodable top-level entries yields
/// them all back, whatever the starting index and context.
pub proof fn lemma_decode_encode_header_entries(
    data: Seq<u8>,
    pos: int,
    es: Seq<EntryView>,
    index: int,
    ctx: Seq<Seq<char>>,
)
    requires
        encodable_entries(es),
        0 <= pos,
        pos + spec_encode_entries(es).len() <= data.len(),
        data.subrange(pos, pos + spec_encode_entries(es).len() as int) == spec_encode_entries(es),
    ensures
        spec_decode_header_entries(data, pos, es.len() as int, index, ctx) == Ok::<
            _,
            DecodeFailure,
        >((es, pos + spec_encode_entries(es).len())),
    decreases es,
{
    let enc = spec_encode_entries(es);
    let len = enc.len() as int;
    assert forall|j: int| 0 <= j < len implies data[pos + j] == enc[j] by {
        assert(enc[j] == data.subrange(pos, pos + len)[j]);
    }
    if es.len() == 0 {
        assert(es =~= Seq::<EntryView>::empty());
    } else {
        let e0 = es[0];
        let rest = es.subrange(1, es.len() as int);
        let enc0 = spec_encode_entry(e0);
        let encr = spec_encode_entries(rest);
        assert(enc == enc0 + encr);
        assert forall|j: int| 0 <= j < enc0.len() implies data.subrange(
            pos,
            pos + enc0.len() as int,
        )[j] == enc0[j] by {
            assert(data[pos + j] == enc[j]);
            assert(enc[j] == enc0[j]);
        }
        assert(data.subrange(pos, pos + enc0.len() as int) =~= enc0);
        lemma_decode_encode_entry(data, pos, e0, ctx.push(spec_decimal(index)));
        lemma_encode_entry_len(e0);
        let p1 = pos + enc0.len() as int;
        assert forall|j: int| 0 <= j < encr.len() implies data.subrange(
            p1,
            p1 + encr.len() as int,
        )[j] == encr[j] by {
            assert(data[p1 + j] == enc[enc0.len() + j]);
            assert(enc[enc0.len() + j] == encr[j]);
        }
        assert(data.subrange(p1, p1 + encr.len() as int) =~= encr);
        lemma_decode_encode_header_entries(data, p1, rest, index + 1, ctx);
        assert(seq![e0] + rest =~= es);
        assert(spec_decode_header_entries(data, pos, es.len() as int, index, ctx) == Ok::<
            _,
            DecodeFailure,
        >((es, pos + len)));
    }
}

/// Decoding the encoding of an encodable version-1 header yields it back,
/// under any context.
pub proof fn lemma_decode_encode_header(data: Seq<u8>, pos: int, h: HeaderView, ctx: Seq<Seq<char>>)
    requires
        h.version == 1,
        encodable_header(h),
        0 <= pos,
        pos + spec_encode_header(h).len() <= data.len(),
        data.subrange(pos, pos + spec_encode_header(h).len() as int) == spec_encode_header(h),
    ensures
        spec_decode_header(data, pos, ctx) == Ok::<_, DecodeFailure>(
            (h, pos + spec_encode_header(h).len()),
        ),
{
    let enc = spec_encode_header(h);
    let len = enc.len() as int;
    let count = h.entries.len() as u16;
    let ence = spec_encode_entries(h.entries);
    assert forall|j: int| 0 <= j < len implies data[pos + j] == enc[j] by {
        assert(enc[j] == data.subrange(pos, pos + len)[j]);
    }
    assert(enc == seq![h.version] + spec_be16(count) + ence);
    assert(len == 3 + ence.len());
    assert(enc[0] == 1u8);
    assert(spec_read_u8(data, pos) == Some((1u8, pos + 1)));
    lemma_be16_value(count);
    assert(data[pos + 1] == enc[1] && enc[1] == spec_be16(count)[0]);
    assert(data[pos + 2] == enc[2] && enc[2] == spec_be16(count)[1]);
    assert(spec_read_u16(data, pos + 1) == Some((count, pos + 3)));
    let p2 = pos + 3;
    assert forall|j: int| 0 <= j < ence.len() implies data.subrange(
        p2,
        p2 + ence.len() as int,
    )[j] == ence[j] by {
        assert(data[p2 + j] == enc[3 + j]);
        assert(enc[3 + j] == ence[j]);
    }
    assert(data.subrange(p2, p2 + ence.len() as int) =~= ence);
    lemma_decode_encode_header_entries(data, p2, h.entries, 0, ctx);
    assert(count as int == h.entries.len());
    assert(spec_decode_header(data, pos, ctx) == Ok::<_, DecodeFailure>((h, pos + len)));
}

} // verus!
