use crate::error::{CatError, CatResult, ErrorType};
use vstd::prelude::*;
use vstd::string::StrSliceExecFns;
use vstd::string::StringExecFns;
use vstd::utf8::{decode_utf8, encode_utf8, valid_utf8};

verus! {

/// A character allowed in an entry name: printable ASCII other than the two
/// path separators.
pub open spec fn valid_name_char(c: char) -> bool {
    33 <= c as u32 <= 126 && c != '/' && c != '\\'
}

/// The rule every entry name must pass, on packing and on unpacking alike:
/// non-empty, printable ASCII, no `/` or `\`, and not the literal `..`.
pub open spec fn valid_name(name: Seq<char>) -> bool {
    &&& name.len() > 0
    &&& forall|i: int| 0 <= i < name.len() ==> valid_name_char(#[trigger] name[i])
    &&& name != seq!['.', '.']
}

/// Spec-level rendering of a context chain: the segments joined from root to
/// leaf with `/` between them.
pub open spec fn render_of(segments: Seq<Seq<char>>) -> Seq<char>
    decreases segments.len(),
{
    if segments.len() == 0 {
        Seq::empty()
    } else if segments.len() == 1 {
        segments[0]
    } else {
        render_of(segments.drop_last()) + seq!['/'] + segments.last()
    }
}

/// An immutable chain of path segments naming a location in the source tree
/// or in the archive layout. `push` returns an extended copy and never
/// mutates the receiver, so a context can be threaded into recursive calls
/// while each caller keeps its own branch.
#[derive(Debug)]
pub struct EvalContext {
    segments: Vec<String>,
}

impl View for EvalContext {
    type V = Seq<Seq<char>>;

    closed spec fn view(&self) -> Seq<Seq<char>> {
        self.segments.deep_view()
    }
}

impl Clone for EvalContext {
    fn clone(&self) -> (r: Self)
        ensures
            r@ == self@,
    {
        let segments = self.segments.clone();
        proof {
            assert(segments.deep_view() =~= self.segments.deep_view());
        }
        EvalContext { segments }
    }
}

impl EvalContext {
    /// A root context holding the single segment `path`.
    pub fn new(path: String) -> (r: Self)
        ensures
            r@ == seq![path@],
    {
        let mut segments: Vec<String> = Vec::new();
        segments.push(path);
        proof {
            assert(segments.deep_view() =~= seq![path@]);
        }
        EvalContext { segments }
    }

    /// A new context whose chain is this one followed by `path`; `self` is
    /// left untouched.
    pub fn push(&self, path: String) -> (r: Self)
        ensures
            r@ == self@ + seq![path@],
    {
        let mut segments = self.segments.clone();
        segments.push(path);
        proof {
            assert(segments.deep_view() =~= self.segments.deep_view() + seq![path@]);
        }
        EvalContext { segments }
    }

    /// The root-to-leaf chain as one `/`-separated string.
    pub fn render(&self) -> (r: String)
        ensures
            r@ == render_of(self@),
    {
        proof {
            reveal_strlit("/");
        }
        let mut out = String::new();
        let n = self.segments.len();
        for i in 0..n
            invariant
                n == self.segments.len(),
                out@ == render_of(self@.subrange(0, i as int)),
        {
            let ghost prefix = self@.subrange(0, i as int);
            if i > 0 {
                out.append("/");
            }
            out.append(self.segments[i].as_str());
            proof {
                reveal_strlit("/");
                let extended = self@.subrange(0, i as int + 1);
                assert(extended.last() == self@[i as int]);
                assert(self.segments[i as int]@ == self@[i as int]);
                if i == 0 {
                    assert(extended.len() == 1);
                    assert(out@ =~= render_of(extended));
                } else {
                    assert(extended.drop_last() =~= prefix);
                    assert("/"@ =~= seq!['/']);
                    assert(out@ =~= render_of(prefix) + seq!['/'] + extended.last());
                    assert(out@ =~= render_of(extended));
                }
            }
        }
        proof {
            assert(self@.subrange(0, n as int) =~= self@);
        }
        out
    }
}

/// Checks `name` against the naming rule and hands it back unchanged, or
/// raises `InvalidEntryName` carrying the given context.
pub fn validate_name(name: String, context: &EvalContext) -> (r: CatResult<String>)
    ensures
        match r {
            Ok(n) => valid_name(name@) && n == name,
            Err(e) => !valid_name(name@) && (e.error_type matches ErrorType::InvalidEntryName(
                c,
            ) && c@ == context@),
        },
{
    let n_chars = name.as_str().unicode_len();
    if n_chars == 0 {
        return Err(ErrorType::InvalidEntryName(context.clone()).new());
    }
    for i in 0..n_chars
        invariant
            n_chars == name@.len(),
            forall|j: int| 0 <= j < i ==> valid_name_char(#[trigger] name@[j]),
    {
        let c = name.as_str().get_char(i);
        let u = c as u32;
        if !(33 <= u && u <= 126) || c == '/' || c == '\\' {
            return Err(ErrorType::InvalidEntryName(context.clone()).new());
        }
    }
    if n_chars == 2 {
        let c0 = name.as_str().get_char(0);
        let c1 = name.as_str().get_char(1);
        if c0 == '.' && c1 == '.' {
            proof {
                assert(name@ =~= seq!['.', '.']);
            }
            return Err(ErrorType::InvalidEntryName(context.clone()).new());
        }
    }
    proof {
        if name@ == seq!['.', '.'] {
            assert(name@.len() == 2);
            assert(name@[0] == '.' && name@[1] == '.');
        }
    }
    Ok(name)
}

/// The big-endian bytes of a `u16`.
pub open spec fn spec_be16(v: u16) -> Seq<u8> {
    seq![(v >> 8) as u8, v as u8]
}

/// The big-endian bytes of a `u32`.
pub open spec fn spec_be32(v: u32) -> Seq<u8> {
    seq![(v >> 24) as u8, (v >> 16) as u8, (v >> 8) as u8, v as u8]
}

/// Appends `value` to `buffer` as two big-endian bytes.
pub fn write_u16(value: u16, buffer: &mut Vec<u8>)
    ensures
        final(buffer)@ == old(buffer)@ + spec_be16(value),
{
    let hi = #[verifier::truncate] ((value >> 8) as u8);
    let lo = #[verifier::truncate] (value as u8);
    buffer.push(hi);
    buffer.push(lo);
    proof {
        assert(buffer@ =~= old(buffer)@ + spec_be16(value));
    }
}

/// Appends `value` to `buffer` as four big-endian bytes.
pub fn write_u32(value: u32, buffer: &mut Vec<u8>)
    ensures
        final(buffer)@ == old(buffer)@ + spec_be32(value),
{
    let b0 = #[verifier::truncate] ((value >> 24) as u8);
    let b1 = #[verifier::truncate] ((value >> 16) as u8);
    let b2 = #[verifier::truncate] ((value >> 8) as u8);
    let b3 = #[verifier::truncate] (value as u8);
    buffer.push(b0);
    buffer.push(b1);
    buffer.push(b2);
    buffer.push(b3);
    proof {
        assert(buffer@ =~= old(buffer)@ + spec_be32(value));
    }
}

/// The wire encoding of a name: one length byte, then the UTF-8 bytes of
/// the name; meaningful only when those bytes fit the length byte.
pub open spec fn spec_encode_name(name: Seq<char>) -> Seq<u8> {
    seq![encode_utf8(name).len() as u8] + encode_utf8(name)
}

/// Appends `string` to `buffer` as one length byte followed by the UTF-8
/// bytes, or reports a name whose bytes do not fit the length byte.
pub fn write_string(string: &String, buffer: &mut Vec<u8>) -> (r: Result<(), String>)
    ensures
        match r {
            Ok(_) => encode_utf8(string@).len() <= 255 && final(buffer)@ == old(buffer)@
                + spec_encode_name(string@),
            Err(_) => encode_utf8(string@).len() > 255 && final(buffer)@ == old(buffer)@,
        },
{
    let bytes = string.as_str().as_bytes();
    if bytes.len() > 255 {
        return Err(String::from_str("name is longer than 255 bytes"));
    }
    let length = bytes.len() as u8;
    buffer.push(length);
    let ghost with_length = buffer@;
    buffer.extend_from_slice(bytes);
    proof {
        assert forall|i: int| 0 <= i < buffer@.len() implies buffer@[i] == (old(buffer)@
            + spec_encode_name(string@))[i] by {
            if i >= with_length.len() {
                assert(vstd::pervasive::cloned::<u8>(bytes@[i - with_length.len()], buffer@[i]));
            }
        }
        assert(buffer@ =~= old(buffer)@ + spec_encode_name(string@));
    }
    Ok(())
}

/// Reassembling the big-endian bytes of a `u16` gives the value back.
pub proof fn lemma_be16_value(v: u16)
    ensures
        (spec_be16(v)[0] as u16) << 8 | (spec_be16(v)[1] as u16) == v,
{
    assert((((v >> 8) as u8) as u16) << 8 | ((v as u8) as u16) == v) by (bit_vector);
}

/// Reassembling the big-endian bytes of a `u32` gives the value back.
pub proof fn lemma_be32_value(v: u32)
    ensures
        (spec_be32(v)[0] as u32) << 24 | (spec_be32(v)[1] as u32) << 16 | (spec_be32(v)[2]
            as u32) << 8 | (spec_be32(v)[3] as u32) == v,
{
    assert((((v >> 24) as u8) as u32) << 24 | (((v >> 16) as u8) as u32) << 16 | (((v >> 8) as u8)
        as u32) << 8 | ((v as u8) as u32) == v) by (bit_vector);
}

/// Reading one byte at `pos`: the byte and the position after it.
pub open spec fn spec_read_u8(data: Seq<u8>, pos: int) -> Option<(u8, int)> {
    if 0 <= pos && pos + 1 <= data.len() {
        Some((data[pos], pos + 1))
    } else {
        None
    }
}

/// Reading a big-endian `u16` at `pos`.
pub open spec fn spec_read_u16(data: Seq<u8>, pos: int) -> Option<(u16, int)> {
    if 0 <= pos && pos + 2 <= data.len() {
        Some(((data[pos] as u16) << 8 | (data[pos + 1] as u16), pos + 2))
    } else {
        None
    }
}

/// Reading a big-endian `u32` at `pos`.
pub open spec fn spec_read_u32(data: Seq<u8>, pos: int) -> Option<(u32, int)> {
    if 0 <= pos && pos + 4 <= data.len() {
        Some(
            (
                (data[pos] as u32) << 24 | (data[pos + 1] as u32) << 16 | (data[pos + 2]
                    as u32) << 8 | (data[pos + 3] as u32),
                pos + 4,
            ),
        )
    } else {
        None
    }
}

/// What `String::from_utf8_lossy` returns on bytes that are not valid UTF-8;
/// it depends on the bytes alone.
pub uninterp spec fn utf8_lossy_of(bytes: Seq<u8>) -> Seq<char>;

/// The characters a byte sequence decodes to permissively: exact UTF-8
/// decoding where the bytes are valid, replacement otherwise.
pub open spec fn lossy_decode(bytes: Seq<u8>) -> Seq<char> {
    if valid_utf8(bytes) {
        decode_utf8(bytes)
    } else {
        utf8_lossy_of(bytes)
    }
}

/// Relies on `String::from_utf8_lossy`: valid UTF-8 input decodes to exactly
/// its characters, invalid sequences are replaced, and the result depends on
/// the bytes alone.
#[verifier::external_body]
fn from_utf8_lossy(bytes: &[u8]) -> (r: String)
    ensures
        r@ == lossy_decode(bytes@),
        !valid_utf8(bytes@) ==> r@ == utf8_lossy_of(bytes@),
{
    String::from_utf8_lossy(bytes).into_owned()
}

/// Reading a length-prefixed string at `pos`: one length byte, then that
/// many bytes decoded permissively.
pub open spec fn spec_read_string(data: Seq<u8>, pos: int) -> Option<(Seq<char>, int)> {
    match spec_read_u8(data, pos) {
        Option::None => Option::None,
        Option::Some((n, p)) => if p + n <= data.len() {
            Some((lossy_decode(data.subrange(p, p + n)), p + n))
        } else {
            None
        },
    }
}

/// Reads one byte and advances `pos`, or reports a short read.
pub fn read_u8(data: &[u8], pos: &mut usize) -> (r: Result<u8, String>)
    ensures
        match r {
            Ok(v) => spec_read_u8(data@, *old(pos) as int) == Some((v, *final(pos) as int))
                && *final(pos) == *old(pos) + 1,
            Err(m) => spec_read_u8(data@, *old(pos) as int) is None && *final(pos) == *old(pos) && m@ == "unexpected end of data"@,
        },
{
    if *pos < data.len() {
        let b = data[*pos];
        *pos = *pos + 1;
        Ok(b)
    } else {
        Err(short_read_message())
    }
}

/// Reads a big-endian `u16` and advances `pos`, or reports a short read.
pub fn read_u16(data: &[u8], pos: &mut usize) -> (r: Result<u16, String>)
    ensures
        match r {
            Ok(v) => spec_read_u16(data@, *old(pos) as int) == Some((v, *final(pos) as int))
                && *final(pos) == *old(pos) + 2,
            Err(m) => spec_read_u16(data@, *old(pos) as int) is None && *final(pos) == *old(pos) && m@ == "unexpected end of data"@,
        },
{
    if *pos <= data.len() && data.len() - *pos >= 2 {
        let b0 = data[*pos];
        let b1 = data[*pos + 1];
        *pos = *pos + 2;
        Ok((b0 as u16) << 8 | (b1 as u16))
    } else {
        Err(short_read_message())
    }
}

/// Reads a big-endian `u32` and advances `pos`, or reports a short read.
pub fn read_u32(data: &[u8], pos: &mut usize) -> (r: Result<u32, String>)
    ensures
        match r {
            Ok(v) => spec_read_u32(data@, *old(pos) as int) == Some((v, *final(pos) as int))
                && *final(pos) == *old(pos) + 4,
            Err(m) => spec_read_u32(data@, *old(pos) as int) is None && *final(pos) == *old(pos) && m@ == "unexpected end of data"@,
        },
{
    if *pos <= data.len() && data.len() - *pos >= 4 {
        let b0 = data[*pos];
        let b1 = data[*pos + 1];
        let b2 = data[*pos + 2];
        let b3 = data[*pos + 3];
        *pos = *pos + 4;
        Ok((b0 as u32) << 24 | (b1 as u32) << 16 | (b2 as u32) << 8 | (b3 as u32))
    } else {
        Err(short_read_message())
    }
}

/// Reads a length-prefixed string and advances `pos`, or reports a short
/// read.
pub fn read_string(data: &[u8], pos: &mut usize) -> (r: Result<String, String>)
    ensures
        match r {
            Ok(s) => spec_read_string(data@, *old(pos) as int) == Some(
                (s@, *final(pos) as int),
            ) && *old(pos) < *final(pos) <= data@.len(),
            Err(m) => spec_read_string(data@, *old(pos) as int) is None && m@
                == "unexpected end of data"@,
        },
{
    let n = match read_u8(data, pos) {
        Ok(v) => v,
        Err(m) => {
            return Err(m);
        },
    };
    if data.len() - *pos >= n as usize {
        let bytes = vstd::slice::slice_subrange(data, *pos, *pos + n as usize);
        let s = from_utf8_lossy(bytes);
        *pos = *pos + n as usize;
        Ok(s)
    } else {
        Err(short_read_message())
    }
}

/// The message attached to a read that ran past the end of the data.
fn short_read_message() -> (r: String)
    ensures
        r@ == "unexpected end of data"@,
{
    String::from_str("unexpected end of data")
}

/// The character for one decimal digit.
pub open spec fn spec_digit_char(d: int) -> char {
    if d == 0 {
        '0'
    } else if d == 1 {
        '1'
    } else if d == 2 {
        '2'
    } else if d == 3 {
        '3'
    } else if d == 4 {
        '4'
    } else if d == 5 {
        '5'
    } else if d == 6 {
        '6'
    } else if d == 7 {
        '7'
    } else if d == 8 {
        '8'
    } else {
        '9'
    }
}

/// The decimal digits of a non-negative number, most significant first.
pub open spec fn spec_decimal(n: int) -> Seq<char>
    decreases n,
{
    if n < 10 {
        seq![spec_digit_char(n)]
    } else {
        spec_decimal(n / 10) + seq![spec_digit_char(n % 10)]
    }
}

/// One decimal digit as a string slice.
fn digit_str(d: u8) -> (r: &'static str)
    requires
        d < 10,
    ensures
        r@ == seq![spec_digit_char(d as int)],
{
    proof {
        reveal_strlit("0");
        reveal_strlit("1");
        reveal_strlit("2");
        reveal_strlit("3");
        reveal_strlit("4");
        reveal_strlit("5");
        reveal_strlit("6");
        reveal_strlit("7");
        reveal_strlit("8");
        reveal_strlit("9");
    }
    match d {
        0 => "0",
        1 => "1",
        2 => "2",
        3 => "3",
        4 => "4",
        5 => "5",
        6 => "6",
        7 => "7",
        8 => "8",
        _ => "9",
    }
}

/// Renders a number in decimal.
pub fn decimal_string(n: u16) -> (r: String)
    ensures
        r@ == spec_decimal(n as int),
    decreases n,
{
    if n < 10 {
        let mut s = String::new();
        s.append(digit_str(n as u8));
        s
    } else {
        let mut s = decimal_string(n / 10);
        s.append(digit_str((n % 10) as u8));
        s
    }
}

/// Selects which context-carrying failure kind `wrap_context` builds from a
/// low-level error message.
#[derive(Clone, Copy, Debug, PartialEq, Eq, Structural)]
pub enum MetaErrorKind {
    WritingMetadata,
    ReadingMetadata,
    CompressData,
}

/// Holds when `e` is the context-carrying error that `kind` selects, built
/// from the given context chain and message.
pub open spec fn wrapped_error(
    e: ErrorType,
    kind: MetaErrorKind,
    context: Seq<Seq<char>>,
    msg: Seq<char>,
) -> bool {
    match kind {
        MetaErrorKind::WritingMetadata => e matches ErrorType::ErrorWritingMetadata(c, m) && c@
            == context && m@ == msg,
        MetaErrorKind::ReadingMetadata => e matches ErrorType::ErrorReadingMetadata(c, m) && c@
            == context && m@ == msg,
        MetaErrorKind::CompressData => e matches ErrorType::FailedToCompressData(c, m) && c@
            == context && m@ == msg,
    }
}

/// Converts a low-level failure into the corresponding context-carrying
/// error: the uniform mechanism used throughout the tree codec.
pub fn wrap_context<T>(result: Result<T, String>, context: EvalContext, converter: MetaErrorKind) -> (r:
    CatResult<T>)
    ensures
        match result {
            Ok(t) => r matches Ok(v) && v == t,
            Err(m) => r matches Err(e) && wrapped_error(e.error_type, converter, context@, m@),
        },
{
    match result {
        Ok(t) => Ok(t),
        Err(m) => match converter {
            MetaErrorKind::WritingMetadata => Err(
                ErrorType::ErrorWritingMetadata(context, m).new(),
            ),
            MetaErrorKind::ReadingMetadata => Err(
                ErrorType::ErrorReadingMetadata(context, m).new(),
            ),
            MetaErrorKind::CompressData => Err(
                ErrorType::FailedToCompressData(context, m).new(),
            ),
        },
    }
}

} // verus!
