//! The frames that language server messages travel in: a header that gives the length of the
//! body, an empty line, and the body.
use crate::text::{
    chars_of, decimal_of, digit_char, is_white, law_trim, trim, trim_end_of, trim_of,
    trim_start_of, written_number,
};
use vstd::prelude::*;
use vstd::slice::slice_subrange;
use vstd::utf8::{decode_utf8, encode_utf8, valid_utf8};

verus! {

// ---------------------------------------------------------------------------------------------
// Writing
// ---------------------------------------------------------------------------------------------
/// A number in decimal digits, as ASCII bytes, without leading zeros.
pub open spec fn digits_of(n: nat) -> Seq<u8>
    decreases n,
{
    if n < 10 {
        seq![(48 + n) as u8]
    } else {
        digits_of(n / 10).push((48 + n % 10) as u8)
    }
}

/// The name of the header field that gives the body's length, with its colon.
pub open spec fn length_field() -> Seq<u8> {
    encode_utf8("Content-Length:"@)
}

/// The header of a frame whose body has a given length, up to and with the empty line.
pub open spec fn header_of(content_length: nat) -> Seq<u8> {
    length_field() + encode_utf8(" "@) + digits_of(content_length) + encode_utf8("\r\n\r\n"@)
}

/// The frame around a body.
pub open spec fn frame_of(body: Seq<u8>) -> Seq<u8> {
    header_of(body.len()) + body
}

/// Appends the bytes of a slice.
fn push_bytes(out: &mut Vec<u8>, bytes: &[u8])
    ensures
        final(out)@ == old(out)@ + bytes@,
{
    out.extend_from_slice(bytes);
    assert(out@ =~= old(out)@ + bytes@);
}

/// Appends a number in decimal digits.
fn push_digits(out: &mut Vec<u8>, n: usize)
    ensures
        final(out)@ == old(out)@ + digits_of(n as nat),
    decreases n,
{
    if n >= 10 {
        push_digits(out, n / 10);
    }
    out.push(48 + (n % 10) as u8);
    assert(out@ =~= old(out)@ + digits_of(n as nat));
}

/// Appends the header of a frame whose body has a given length.
pub fn write_header(out: &mut Vec<u8>, content_length: usize)
    ensures
        final(out)@ == old(out)@ + header_of(content_length as nat),
{
    push_bytes(out, "Content-Length:".as_bytes());
    push_bytes(out, " ".as_bytes());
    push_digits(out, content_length);
    push_bytes(out, "\r\n\r\n".as_bytes());
    assert(out@ =~= old(out)@ + header_of(content_length as nat));
}

/// The frame around a body.
pub fn encode_frame(body: &[u8]) -> (out: Vec<u8>)
    ensures
        out@ == frame_of(body@),
{
    let mut out: Vec<u8> = Vec::new();
    write_header(&mut out, body.len());
    push_bytes(&mut out, body);
    assert(out@ =~= frame_of(body@));
    out
}

// ---------------------------------------------------------------------------------------------
// Reading
// ---------------------------------------------------------------------------------------------
/// Why a frame could not be read.
#[derive(Clone, Copy, Debug, PartialEq, Eq, Structural)]
pub enum ReadError {
    /// The stream ended inside the header.
    EofInHeaders,
    /// The length field is not UTF-8.
    NonUtf8Length,
    /// The length field holds no number that fits.
    InvalidLength,
    /// The header has no length field.
    MissingLength,
    /// The stream ended inside the body.
    EofInBody,
}

impl ReadError {
    /// The text that reports the error.
    pub open spec fn text(self) -> Seq<char> {
        match self {
            ReadError::EofInHeaders => "EOF inside LSP headers"@,
            ReadError::NonUtf8Length => "non-utf8 Content-Length"@,
            ReadError::InvalidLength => "invalid Content-Length"@,
            ReadError::MissingLength => "missing Content-Length header"@,
            ReadError::EofInBody => "early eof"@,
        }
    }

    pub fn message(self) -> (r: &'static str)
        ensures
            r@ == self.text(),
    {
        match self {
            ReadError::EofInHeaders => "EOF inside LSP headers",
            ReadError::NonUtf8Length => "non-utf8 Content-Length",
            ReadError::InvalidLength => "invalid Content-Length",
            ReadError::MissingLength => "missing Content-Length header",
            ReadError::EofInBody => "early eof",
        }
    }
}

pub open spec fn all_digits(s: Seq<char>) -> bool {
    forall|i: int| 0 <= i < s.len() ==> '0' <= #[trigger] s[i] <= '9'
}

/// The number that decimal digits stand for.
pub open spec fn value_of(s: Seq<char>) -> nat
    decreases s.len(),
{
    if s.len() == 0 {
        0
    } else {
        value_of(s.drop_last()) * 10 + (s.last() as nat - '0' as nat) as nat
    }
}

/// The number that a text spells: decimal digits, with one plus sign allowed in front.
pub open spec fn number_of(s: Seq<char>) -> Option<nat> {
    let digits = if s.len() > 0 && s[0] == '+' {
        s.skip(1)
    } else {
        s
    };
    if digits.len() > 0 && all_digits(digits) {
        Some(value_of(digits))
    } else {
        None
    }
}

/// The length that the bytes behind the length field's colon give.
pub open spec fn length_of(field: Seq<u8>) -> Result<usize, ReadError> {
    if !valid_utf8(field) {
        Err(ReadError::NonUtf8Length)
    } else {
        match number_of(trim_of(decode_utf8(field))) {
            Some(n) => if n <= usize::MAX {
                Ok(n as usize)
            } else {
                Err(ReadError::InvalidLength)
            },
            None => Err(ReadError::InvalidLength),
        }
    }
}

/// Whether a header line is the empty line that ends the header.
pub open spec fn is_blank(line: Seq<u8>) -> bool {
    line == seq![13u8, 10u8] || line == seq![10u8]
}

/// What reading one more header line leads to.
#[derive(Clone, Copy, Debug, PartialEq, Eq, Structural)]
pub enum HeaderStep {
    /// The header goes on.
    More,
    /// The header is complete and a body of this length follows.
    Body(usize),
    /// The stream ended in front of a frame.
    End,
    Fail(ReadError),
}

/// What one more line, empty at the end of the stream, makes of a header: the length known so
/// far, and what to do next.
pub open spec fn step_of(header: Seq<u8>, length: Option<usize>, line: Seq<u8>) -> (
    Option<usize>,
    HeaderStep,
) {
    if line.len() == 0 {
        (length, if header.len() == 0 { HeaderStep::End } else {
                HeaderStep::Fail(ReadError::EofInHeaders)
            })
    } else if is_blank(line) {
        (length, match length {
                Some(n) => HeaderStep::Body(n),
                None => HeaderStep::Fail(ReadError::MissingLength),
            })
    } else if length_field().is_prefix_of(line) {
        match length_of(line.skip(length_field().len() as int)) {
            Ok(n) => (Some(n), HeaderStep::More),
            Err(e) => (length, HeaderStep::Fail(e)),
        }
    } else {
        (length, HeaderStep::More)
    }
}

/// `std::str::from_utf8` accepts exactly the byte sequences that are UTF-8, and hands the same
/// bytes back as text.
#[verifier::external_body]
fn utf8_text(bytes: &[u8]) -> (r: Option<&str>)
    ensures
        match r {
            Some(s) => valid_utf8(bytes@) && encode_utf8(s@) == bytes@,
            None => !valid_utf8(bytes@),
        },
{
    std::str::from_utf8(bytes).ok()
}

proof fn lemma_value_prefix(s: Seq<char>, i: int)
    requires
        0 <= i <= s.len(),
    ensures
        value_of(s.take(i)) <= value_of(s),
    decreases s.len() - i,
{
    if i < s.len() {
        assert(s.take(i + 1).drop_last() =~= s.take(i));
        lemma_value_prefix(s, i + 1);
    } else {
        assert(s.take(i) =~= s);
    }
}

/// The number that a slice of characters spells, where it fits.
fn parse_number(s: &[char]) -> (r: Option<usize>)
    ensures
        match r {
            Some(n) => number_of(s@) == Some(n as nat),
            None => number_of(s@) matches Some(n) ==> n > usize::MAX,
        },
{
    let digits = if s.len() > 0 && s[0] == '+' {
        slice_subrange(s, 1, s.len())
    } else {
        s
    };
    assert(s@.len() > 0 && s@[0] == '+' ==> digits@ =~= s@.skip(1));
    if digits.len() == 0 {
        return None;
    }
    let mut n: usize = 0;
    let mut i: usize = 0;
    while i < digits.len()
        invariant
            i <= digits.len(),
            n == value_of(digits@.take(i as int)),
            forall|j: int| 0 <= j < i ==> '0' <= #[trigger] digits@[j] <= '9',
            digits@.len() > 0,
            digits@ == (if s@.len() > 0 && s@[0] == '+' {
                s@.skip(1)
            } else {
                s@
            }),
        decreases digits.len() - i,
    {
        let c = digits[i];
        if !('0' <= c && c <= '9') {
            assert(!all_digits(digits@));
            return None;
        }
        let d: usize = (c as u32 - 48) as usize;
        proof {
            assert(digits@.take(i as int + 1).drop_last() =~= digits@.take(i as int));
            assert(value_of(digits@.take(i as int + 1)) == n * 10 + d);
            lemma_value_prefix(digits@, i as int + 1);
        }
        if n > usize::MAX / 10 || n * 10 > usize::MAX - d {
            return None;
        }
        n = n * 10 + d;
        i += 1;
    }
    assert(digits@.take(i as int) =~= digits@);
    Some(n)
}

fn parse_length(field: &[u8]) -> (r: Result<usize, ReadError>)
    ensures
        r == length_of(field@),
{
    match utf8_text(field) {
        None => Err(ReadError::NonUtf8Length),
        Some(text) => {
            proof {
                vstd::utf8::encode_utf8_decode_utf8(text@);
            }
            let chars = chars_of(text);
            match parse_number(trim(chars.as_slice())) {
                Some(n) => Ok(n),
                None => Err(ReadError::InvalidLength),
            }
        },
    }
}

/// A frame header that is being read line by line.
pub struct HeaderReader {
    header: Vec<u8>,
    length: Option<usize>,
}

impl HeaderReader {
    /// The bytes read so far.
    pub closed spec fn bytes(&self) -> Seq<u8> {
        self.header@
    }

    /// The body length that the lines read so far give.
    pub closed spec fn length(&self) -> Option<usize> {
        self.length
    }

    pub fn new() -> (r: HeaderReader)
        ensures
            r.bytes() == Seq::<u8>::empty(),
            r.length() is None,
    {
        HeaderReader { header: Vec::new(), length: None }
    }

    /// Takes the next line, with its line feed, or nothing at the end of the stream.
    pub fn feed(&mut self, line: &[u8]) -> (r: HeaderStep)
        ensures
            final(self).bytes() == old(self).bytes() + line@,
            (final(self).length(), r) == step_of(old(self).bytes(), old(self).length(), line@),
    {
        let first = self.header.len() == 0;
        push_bytes(&mut self.header, line);
        if line.len() == 0 {
            return if first {
                HeaderStep::End
            } else {
                HeaderStep::Fail(ReadError::EofInHeaders)
            };
        }
        let blank = (line.len() == 1 && line[0] == 10) || (line.len() == 2 && line[0] == 13
            && line[1] == 10);
        proof {
            assert(line@.len() == 1 && line@[0] == 10 ==> line@ =~= seq![10u8]);
            assert(line@.len() == 2 && line@[0] == 13 && line@[1] == 10 ==> line@ =~= seq![
                13u8,
                10u8,
            ]);
            assert(blank == is_blank(line@));
        }
        if blank {
            return match self.length {
                Some(n) => HeaderStep::Body(n),
                None => HeaderStep::Fail(ReadError::MissingLength),
            };
        }
        let name = "Content-Length:".as_bytes();
        if has_prefix(line, name) {
            let field = slice_subrange(line, name.len(), line.len());
            assert(field@ =~= line@.skip(length_field().len() as int));
            return match parse_length(field) {
                Ok(n) => {
                    self.length = Some(n);
                    HeaderStep::More
                },
                Err(e) => HeaderStep::Fail(e),
            };
        }
        HeaderStep::More
    }

    /// The bytes of the header.
    pub fn into_bytes(self) -> (r: Vec<u8>)
        ensures
            r@ == self.bytes(),
    {
        self.header
    }
}

fn has_prefix(bytes: &[u8], prefix: &[u8]) -> (r: bool)
    ensures
        r == prefix@.is_prefix_of(bytes@),
{
    if prefix.len() > bytes.len() {
        return false;
    }
    let mut i: usize = 0;
    while i < prefix.len()
        invariant
            i <= prefix.len() <= bytes.len(),
            forall|j: int| 0 <= j < i ==> bytes@[j] == prefix@[j],
        decreases prefix.len() - i,
    {
        if bytes[i] != prefix[i] {
            assert(bytes@.take(prefix@.len() as int)[i as int] != prefix@[i as int]);
            return false;
        }
        i += 1;
    }
    assert(prefix@ =~= bytes@.take(prefix@.len() as int));
    true
}

/// The end of the line that starts at an index, behind its line feed.
pub open spec fn line_stop(s: Seq<u8>, i: int) -> int
    decreases s.len() - i,
{
    if i < 0 || i >= s.len() {
        s.len() as int
    } else if s[i] == 10 {
        i + 1
    } else {
        line_stop(s, i + 1)
    }
}

pub proof fn lemma_line_stop(s: Seq<u8>, i: int)
    requires
        0 <= i <= s.len(),
    ensures
        i <= line_stop(s, i) <= s.len(),
        i < s.len() ==> i < line_stop(s, i),
    decreases s.len() - i,
{
    if i < s.len() && s[i] != 10 {
        lemma_line_stop(s, i + 1);
    }
}

/// Header and body of a frame.
pub type Message = (Seq<u8>, Seq<u8>);

/// What reading a stream from an index on gives, where `length` is what the header lines in front
/// of the index said.
pub open spec fn message_from(s: Seq<u8>, i: int, length: Option<usize>) -> Result<
    Option<Message>,
    ReadError,
>
    decreases s.len() - i,
{
    if i < 0 || i > s.len() {
        Ok(None)
    } else {
        proof {
            lemma_line_stop(s, i);
        }
        let e = line_stop(s, i);
        let (now, step) = step_of(s.take(i), length, s.subrange(i, e));
        match step {
            HeaderStep::End => Ok(None),
            HeaderStep::Fail(error) => Err(error),
            HeaderStep::Body(n) => if e + n <= s.len() {
                Ok(Some((s.take(e), s.subrange(e, e + n))))
            } else {
                Err(ReadError::EofInBody)
            },
            HeaderStep::More => message_from(s, e, now),
        }
    }
}

/// The frame at the front of a stream, if there is one.
pub open spec fn message_of(s: Seq<u8>) -> Result<Option<Message>, ReadError> {
    message_from(s, 0, None)
}

/// Reads the frame at the front of a stream: its header, up to and with the empty line, and its
/// body.
pub fn read_message(stream: &[u8]) -> (r: Result<Option<(Vec<u8>, Vec<u8>)>, ReadError>)
    ensures
        match r {
            Ok(Some((header, body))) => message_of(stream@) == Ok::<_, ReadError>(
                Some((header@, body@)),
            ),
            Ok(None) => message_of(stream@) == Ok::<Option<Message>, ReadError>(None),
            Err(e) => message_of(stream@) == Err::<Option<Message>, ReadError>(e),
        },
{
    let mut reader = HeaderReader::new();
    let mut i: usize = 0;
    assert(stream@.take(0) =~= Seq::<u8>::empty());
    loop
        invariant
            i <= stream.len(),
            reader.bytes() == stream@.take(i as int),
            message_of(stream@) == message_from(stream@, i as int, reader.length()),
        decreases stream.len() - i,
    {
        let mut e: usize = i;
        while e < stream.len() && stream[e] != 10
            invariant
                i <= e <= stream.len(),
                line_stop(stream@, e as int) == line_stop(stream@, i as int),
            decreases stream.len() - e,
        {
            e += 1;
        }
        if e < stream.len() {
            e += 1;
        }
        let line = slice_subrange(stream, i, e);
        proof {
            assert(e == line_stop(stream@, i as int));
            assert(stream@.take(i as int) + line@ =~= stream@.take(e as int));
        }
        match reader.feed(line) {
            HeaderStep::End => return Ok(None),
            HeaderStep::Fail(error) => return Err(error),
            HeaderStep::Body(n) => {
                if n > stream.len() - e {
                    return Err(ReadError::EofInBody);
                }
                let body = vstd::slice::slice_to_vec(slice_subrange(stream, e, e + n));
                return Ok(Some((reader.into_bytes(), body)));
            },
            HeaderStep::More => {
                i = e;
            },
        }
    }
}

// ---------------------------------------------------------------------------------------------
// Laws
// ---------------------------------------------------------------------------------------------
proof fn lemma_digits(n: nat)
    ensures
        digits_of(n).len() > 0,
        forall|i: int| 0 <= i < digits_of(n).len() ==> 48 <= #[trigger] digits_of(n)[i] <= 57,
        value_of(digits_of(n).map_values(|b: u8| b as char)) == n,
    decreases n,
{
    let f = |b: u8| b as char;
    if n < 10 {
        assert(digits_of(n).map_values(f) =~= seq![((48 + n) as u8) as char]);
        assert(seq![((48 + n) as u8) as char].drop_last() =~= Seq::<char>::empty());
        assert(value_of(Seq::<char>::empty()) == 0);
        assert(value_of(seq![((48 + n) as u8) as char]) == n);
    } else {
        lemma_digits(n / 10);
        let s = digits_of(n).map_values(f);
        assert(s.drop_last() =~= digits_of(n / 10).map_values(f));
        assert(s.last() == ((48 + n % 10) as u8) as char);
    }
}

/// The bytes of ASCII text are its characters.
proof fn lemma_ascii(s: Seq<char>)
    requires
        vstd::utf8::is_ascii_chars(s),
    ensures
        encode_utf8(s) == s.map_values(|c: char| c as u8),
{
    vstd::utf8::is_ascii_chars_encode_utf8(s);
    assert(encode_utf8(s) =~= s.map_values(|c: char| c as u8));
}

/// The bytes of the length field's name.
spec fn name_bytes() -> Seq<u8> {
    seq![
        67u8, 111u8, 110u8, 116u8, 101u8, 110u8, 116u8, 45u8, 76u8, 101u8, 110u8, 103u8, 116u8,
        104u8, 58u8,
    ]
}

proof fn lemma_header_parts()
    ensures
        length_field() == name_bytes(),
        encode_utf8(" "@) == seq![32u8],
        encode_utf8("\r\n\r\n"@) == seq![13u8, 10u8, 13u8, 10u8],
{
    reveal_strlit("Content-Length:");
    reveal_strlit(" ");
    reveal_strlit("\r\n\r\n");
    lemma_ascii("Content-Length:"@);
    lemma_ascii(" "@);
    lemma_ascii("\r\n\r\n"@);
    assert(length_field() =~= name_bytes());
    assert(encode_utf8(" "@) =~= seq![32u8]);
    assert(encode_utf8("\r\n\r\n"@) =~= seq![13u8, 10u8, 13u8, 10u8]);
}

proof fn lemma_line_stop_at(s: Seq<u8>, i: int, k: int)
    requires
        0 <= i <= k < s.len(),
        s[k] == 10,
        forall|j: int| i <= j < k ==> s[j] != 10,
    ensures
        line_stop(s, i) == k + 1,
    decreases k - i,
{
    if i < k {
        lemma_line_stop_at(s, i + 1, k);
    }
}

/// The length that `write_header` writes is the length that a reader finds.
proof fn lemma_written_length(n: nat)
    requires
        n <= usize::MAX,
    ensures
        length_of(seq![32u8] + digits_of(n) + seq![13u8, 10u8]) == Ok::<usize, ReadError>(
            n as usize,
        ),
{
    let f = |b: u8| b as char;
    let field = seq![32u8] + digits_of(n) + seq![13u8, 10u8];
    let chars = field.map_values(f);
    let digits = digits_of(n).map_values(f);
    lemma_digits(n);
    assert forall|i: int| 0 <= i < chars.len() implies '\0' <= #[trigger] chars[i] <= '\u{7f}' by {
        assert(chars[i] == field[i] as char);
    }
    lemma_ascii(chars);
    assert(chars.map_values(|c: char| c as u8) =~= field);
    vstd::utf8::encode_utf8_valid_utf8(chars);
    vstd::utf8::encode_utf8_decode_utf8(chars);
    assert(decode_utf8(field) == chars);
    assert(chars =~= seq![' '] + digits + seq!['\r', '\n']);
    let rest = digits + seq!['\r', '\n'];
    assert(chars.drop_first() =~= rest);
    assert(digits[0] == digits_of(n)[0] as char);
    assert(trim_start_of(rest) == rest);
    assert(trim_start_of(chars) == rest);
    assert(rest.drop_last() =~= digits + seq!['\r']);
    assert(rest.drop_last().drop_last() =~= digits);
    assert(digits.last() == digits_of(n).last() as char);
    assert(trim_end_of(digits) == digits);
    assert(trim_end_of(rest.drop_last()) == digits);
    assert(trim_of(chars) == digits);
    assert(all_digits(digits)) by {
        assert forall|i: int| 0 <= i < digits.len() implies '0' <= #[trigger] digits[i] <= '9' by {
            assert(digits[i] == digits_of(n)[i] as char);
        }
    }
}

/// Reading gives back what writing wrote: the frame around a body, whatever follows it in the
/// stream, reads as its header and that body.
pub proof fn law_read_what_was_written(body: Seq<u8>, rest: Seq<u8>)
    requires
        body.len() <= usize::MAX,
    ensures
        message_of(frame_of(body) + rest) == Ok::<_, ReadError>(
            Some((header_of(body.len()), body)),
        ),
{
    let n = body.len();
    let s = frame_of(body) + rest;
    let d = digits_of(n).len() as int;
    lemma_header_parts();
    lemma_digits(n);
    lemma_written_length(n);
    let header = header_of(n);
    assert(header.len() == 20 + d);
    // The first line: the length field.
    assert forall|j: int| 0 <= j < 17 + d implies s[j] != 10 by {
        assert(s[j] == header[j]);
        if 16 <= j < 16 + d {
            assert(header[j] == digits_of(n)[j - 16]);
        }
    }
    assert(s[17 + d] == header[17 + d]);
    lemma_line_stop_at(s, 0, 17 + d);
    let first = s.subrange(0, 18 + d);
    assert(first.skip(15) =~= seq![32u8] + digits_of(n) + seq![13u8, 10u8]);
    assert(first.take(15) =~= length_field());
    assert(first.len() > 2);
    assert(length_field().is_prefix_of(first));
    assert(step_of(s.take(0), None, first) == (Some(n as usize), HeaderStep::More));
    // The second line: the end of the header.
    assert(s[18 + d] == header[18 + d]);
    assert(s[19 + d] == header[19 + d]);
    lemma_line_stop_at(s, 18 + d, 19 + d);
    let second = s.subrange(18 + d, 20 + d);
    assert(second =~= seq![13u8, 10u8]);
    assert(s.take(20 + d) =~= header);
    assert(s.subrange(20 + d, 20 + d + n) =~= body);
    assert(message_from(s, 18 + d, Some(n as usize)) == Ok::<_, ReadError>(Some((header, body))));
}

/// A header is the name of the length field, a space, the length in decimal digits, and the ends of
/// two lines; the frame is the header with the body behind it.
pub proof fn law_frames_are_spelled_out(body: Seq<u8>)
    ensures
        frame_of(body) == seq![
            67u8, 111u8, 110u8, 116u8, 101u8, 110u8, 116u8, 45u8, 76u8, 101u8, 110u8, 103u8, 116u8,
            104u8, 58u8, 32u8,
        ] + digits_of(body.len()) + seq![13u8, 10u8, 13u8, 10u8] + body,
        digits_of(body.len()).map_values(|b: u8| b as char) == decimal_of(body.len()),
{
    lemma_header_parts();
    lemma_digits_are_decimal(body.len());
    assert(frame_of(body) =~= seq![
        67u8, 111u8, 110u8, 116u8, 101u8, 110u8, 116u8, 45u8, 76u8, 101u8, 110u8, 103u8, 116u8,
        104u8, 58u8, 32u8,
    ] + digits_of(body.len()) + seq![13u8, 10u8, 13u8, 10u8] + body);
}

proof fn lemma_digits_are_decimal(n: nat)
    ensures
        digits_of(n).map_values(|b: u8| b as char) == decimal_of(n),
    decreases n,
{
    let f = |b: u8| b as char;
    if n >= 10 {
        lemma_digits_are_decimal(n / 10);
        assert(digits_of(n).map_values(f) =~= digits_of(n / 10).map_values(f).push(
            ((48 + n % 10) as u8) as char,
        ));
        assert(((48 + n % 10) as u8) as char == digit_char(n % 10));
    } else {
        assert(digits_of(n).map_values(f) =~= seq![((48 + n) as u8) as char]);
        assert(((48 + n) as u8) as char == digit_char(n));
    }
}

/// A header line: bytes without a line feed, and a line feed.
pub open spec fn one_line(line: Seq<u8>) -> bool {
    line.len() > 0 && line.last() == 10 && forall|i: int|
        0 <= i < line.len() - 1 ==> #[trigger] line[i] != 10
}

proof fn lemma_first_line(line: Seq<u8>, rest: Seq<u8>)
    requires
        one_line(line),
    ensures
        line_stop(line + rest, 0) == line.len(),
        (line + rest).subrange(0, line.len() as int) == line,
        (line + rest).take(line.len() as int) == line,
{
    let s = line + rest;
    assert forall|j: int| 0 <= j < line.len() - 1 implies s[j] != 10 by {
        assert(s[j] == line[j]);
    }
    assert(s[line.len() - 1] == line.last());
    lemma_line_stop_at(s, 0, line.len() - 1);
    assert(s.subrange(0, line.len() as int) =~= line);
    assert(s.take(line.len() as int) =~= line);
}

/// A stream that ends in front of a frame holds none; one whose header has no length before its
/// empty line is refused; one that ends inside the header or inside the body is refused as such.
pub proof fn law_broken_frames_are_refused(line: Seq<u8>, body: Seq<u8>, n: int)
    requires
        one_line(line),
        line != seq![13u8, 10u8],
        line != seq![10u8],
        line.len() < 15 || line.take(15) != length_field(),
        body.len() <= usize::MAX,
        0 <= n < body.len(),
    ensures
        message_of(Seq::empty()) == Ok::<Option<Message>, ReadError>(None),
        message_of(line) == Err::<Option<Message>, ReadError>(ReadError::EofInHeaders),
        message_of(seq![13u8, 10u8] + body) == Err::<Option<Message>, ReadError>(
            ReadError::MissingLength,
        ),
        message_of(header_of(body.len()) + body.take(n)) == Err::<Option<Message>, ReadError>(
            ReadError::EofInBody,
        ),
{
    let none = Seq::<u8>::empty();
    assert(none.take(0) =~= none);
    assert(none.subrange(0, 0) =~= none);
    lemma_other_line(line);
    lemma_first_line(line, none);
    assert(line + none =~= line);
    assert(line.subrange(line.len() as int, line.len() as int) =~= none);
    assert(line_stop(line, line.len() as int) == line.len());
    assert(message_from(line, line.len() as int, None) == Err::<Option<Message>, ReadError>(
        ReadError::EofInHeaders,
    ));
    lemma_first_line(seq![13u8, 10u8], body);
    lemma_header_at(none, body.len(), body.take(n), None);
    assert(none + header_of(body.len()) =~= header_of(body.len()));
}

proof fn lemma_other_line(line: Seq<u8>)
    requires
        line.len() < 15 || line.take(15) != length_field(),
    ensures
        !length_field().is_prefix_of(line),
{
    lemma_header_parts();
    if length_field().is_prefix_of(line) {
        assert(length_field() =~= line.subrange(0, 15));
        assert(line.take(15) =~= line.subrange(0, 15));
    }
}

proof fn lemma_header_at(front: Seq<u8>, n: nat, rest: Seq<u8>, length: Option<usize>)
    requires
        n <= usize::MAX,
    ensures
        message_from(front + header_of(n) + rest, front.len() as int, length) == (if n
            <= rest.len() {
            Ok::<Option<Message>, ReadError>(Some((front + header_of(n), rest.take(n as int))))
        } else {
            Err::<Option<Message>, ReadError>(ReadError::EofInBody)
        }),
{
    let header = header_of(n);
    let s = front + header + rest;
    let f = front.len() as int;
    let d = digits_of(n).len() as int;
    lemma_header_parts();
    lemma_digits(n);
    lemma_written_length(n);
    assert(header.len() == 20 + d);
    assert forall|j: int| f <= j < f + 17 + d implies s[j] != 10 by {
        assert(s[j] == header[j - f]);
        if 16 <= j - f < 16 + d {
            assert(header[j - f] == digits_of(n)[j - f - 16]);
        }
    }
    assert(s[f + 17 + d] == header[17 + d]);
    lemma_line_stop_at(s, f, f + 17 + d);
    let first = s.subrange(f, f + 18 + d);
    assert(first.skip(15) =~= seq![32u8] + digits_of(n) + seq![13u8, 10u8]);
    assert(first.take(15) =~= length_field());
    assert(first.len() > 2);
    assert(length_field().is_prefix_of(first));
    assert(step_of(s.take(f), length, first) == (Some(n as usize), HeaderStep::More));
    assert(s[f + 18 + d] == header[18 + d]);
    assert(s[f + 19 + d] == header[19 + d]);
    lemma_line_stop_at(s, f + 18 + d, f + 19 + d);
    let second = s.subrange(f + 18 + d, f + 20 + d);
    assert(second =~= seq![13u8, 10u8]);
    assert(s.take(f + 20 + d) =~= front + header);
    if n <= rest.len() {
        assert(s.subrange(f + 20 + d, f + 20 + d + n) =~= rest.take(n as int));
    }
    let end = if n <= rest.len() {
        Ok::<Option<Message>, ReadError>(Some((front + header, rest.take(n as int))))
    } else {
        Err::<Option<Message>, ReadError>(ReadError::EofInBody)
    };
    assert(message_from(s, f + 18 + d, Some(n as usize)) == end);
}

/// A header line that gives no length makes no difference to the body that is read: it is a part of
/// the header.
pub proof fn law_other_header_lines_are_kept(line: Seq<u8>, body: Seq<u8>, rest: Seq<u8>)
    requires
        one_line(line),
        line != seq![13u8, 10u8],
        line != seq![10u8],
        line.len() < 15 || line.take(15) != length_field(),
        body.len() <= usize::MAX,
    ensures
        message_of(line + frame_of(body) + rest) == Ok::<Option<Message>, ReadError>(
            Some((line + header_of(body.len()), body)),
        ),
{
    let s = line + frame_of(body) + rest;
    lemma_other_line(line);
    assert(s =~= line + (frame_of(body) + rest));
    lemma_first_line(line, frame_of(body) + rest);
    assert(s =~= line + header_of(body.len()) + (body + rest));
    lemma_header_at(line, body.len(), body + rest, None);
    assert((body + rest).take(body.len() as int) =~= body);
    assert(message_of(s) == message_from(s, line.len() as int, None));
}

/// The length is what the digits behind the colon spell, whatever white space stands around them
/// and whether or not a plus sign stands in front; a number that is too large, a text that is no
/// number, and bytes that are no text are refused.
pub proof fn law_lengths_are_read(
    front: Seq<char>,
    digits: Seq<char>,
    back: Seq<char>,
    field: Seq<u8>,
)
    requires
        forall|i: int| 0 <= i < front.len() ==> is_white(#[trigger] front[i]),
        forall|i: int| 0 <= i < back.len() ==> is_white(#[trigger] back[i]),
        digits.len() > 0,
        forall|i: int| 0 <= i < digits.len() ==> '0' <= #[trigger] digits[i] <= '9',
    ensures
        ({
            let n = written_number(digits, 10);
            let right = if n <= usize::MAX {
                Ok::<usize, ReadError>(n as usize)
            } else {
                Err::<usize, ReadError>(ReadError::InvalidLength)
            };
            &&& length_of(encode_utf8(front + digits + back)) == right
            &&& length_of(encode_utf8(front + (seq!['+'] + digits) + back)) == right
        }),
        length_of(encode_utf8(front + (digits + seq!['x']) + back)) == Err::<usize, ReadError>(
            ReadError::InvalidLength,
        ),
        length_of(encode_utf8(front + back)) == Err::<usize, ReadError>(ReadError::InvalidLength),
        !valid_utf8(field) ==> length_of(field) == Err::<usize, ReadError>(
            ReadError::NonUtf8Length,
        ),
{
    let signed = seq!['+'] + digits;
    let wrong = digits + seq!['x'];
    law_trim(front, digits, back);
    law_trim(front, signed, back);
    law_trim(front, wrong, back);
    law_trim(front, Seq::empty(), back);
    assert(front + Seq::<char>::empty() + back =~= front + back);
    lemma_decoded(front + digits + back);
    lemma_decoded(front + signed + back);
    lemma_decoded(front + wrong + back);
    lemma_decoded(front + back);
    lemma_value(digits);
    assert(signed.skip(1) =~= digits);
    assert(signed[0] == '+');
    assert(all_digits(digits));
    assert(wrong.last() == 'x' && wrong[0] == digits[0]);
    assert(!all_digits(wrong)) by {
        assert(wrong[digits.len() as int] == 'x');
    }
}

proof fn lemma_decoded(s: Seq<char>)
    ensures
        valid_utf8(encode_utf8(s)),
        decode_utf8(encode_utf8(s)) == s,
{
    vstd::utf8::encode_utf8_valid_utf8(s);
    vstd::utf8::encode_utf8_decode_utf8(s);
}

proof fn lemma_value(s: Seq<char>)
    requires
        forall|i: int| 0 <= i < s.len() ==> '0' <= #[trigger] s[i] <= '9',
    ensures
        value_of(s) == written_number(s, 10),
    decreases s.len(),
{
    if s.len() > 0 {
        lemma_value(s.drop_last());
    }
}

/// A header line that gives no length changes nothing of what is known of it, one that gives one
/// sets it, also where it was known, and an empty line asks for the body.
pub proof fn law_header_lines(header: Seq<u8>, length: Option<usize>, line: Seq<u8>, n: nat)
    requires
        n <= usize::MAX,
    ensures
        line.len() > 0 && (line.len() < 15 || line.take(15) != length_field()) && line != seq![
            13u8,
            10u8,
        ] && line != seq![10u8] ==> step_of(header, length, line) == (length, HeaderStep::More),
        step_of(
            header,
            length,
            length_field() + (seq![32u8] + digits_of(n) + seq![13u8, 10u8]),
        ) == (Some(n as usize), HeaderStep::More),
        length is Some ==> step_of(header, length, seq![13u8, 10u8]).1 == HeaderStep::Body(
            length->0,
        ),
        length is Some ==> step_of(header, length, seq![10u8]).1 == HeaderStep::Body(length->0),
        length is None ==> step_of(header, length, seq![13u8, 10u8]).1 == HeaderStep::Fail(
            ReadError::MissingLength,
        ),
        header.len() > 0 ==> step_of(header, length, Seq::empty()).1 == HeaderStep::Fail(
            ReadError::EofInHeaders,
        ),
        header.len() == 0 ==> step_of(header, length, Seq::empty()).1 == HeaderStep::End,
{
    lemma_header_parts();
    lemma_written_length(n);
    let field = seq![32u8] + digits_of(n) + seq![13u8, 10u8];
    let whole = length_field() + field;
    assert(whole.skip(15) =~= field);
    assert(whole.take(15) =~= length_field());
    assert(whole.len() > 2);
    assert(length_field().is_prefix_of(whole));
    if line.len() < 15 || line.take(15) != length_field() {
        lemma_other_line(line);
    }
}

/// Every error is reported in words of its own.
pub proof fn law_errors_are_told_apart(a: ReadError, b: ReadError)
    ensures
        a != b ==> a.text() != b.text(),
        ReadError::EofInHeaders.text() == "EOF inside LSP headers"@,
        ReadError::NonUtf8Length.text() == "non-utf8 Content-Length"@,
        ReadError::InvalidLength.text() == "invalid Content-Length"@,
        ReadError::MissingLength.text() == "missing Content-Length header"@,
        ReadError::EofInBody.text() == "early eof"@,
{
    reveal_strlit("EOF inside LSP headers");
    reveal_strlit("non-utf8 Content-Length");
    reveal_strlit("invalid Content-Length");
    reveal_strlit("missing Content-Length header");
    reveal_strlit("early eof");
    assert("EOF inside LSP headers"@.len() == 22 && "EOF inside LSP headers"@[0] == 'E');
    assert("non-utf8 Content-Length"@.len() == 23);
    assert("invalid Content-Length"@.len() == 22 && "invalid Content-Length"@[0] == 'i');
    assert("missing Content-Length header"@.len() == 29);
    assert("early eof"@.len() == 9);
}

} // verus!
