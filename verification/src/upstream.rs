//! Reading what a backend answers to the request that opens a tunnel.

use vstd::prelude::*;
use crate::headers::pair_views;
use crate::text::{
    char_is_whitespace, chars_of, find_char, find_seq, first_index, first_occurrence, is_whitespace,
    lemma_first_index, lemma_first_occurrence, parse_unsigned, parse_unsigned_range,
    string_of_range, trim_start,
};

verus! {

/// The most bytes that the head of a backend's answer may have.
pub const MAX_HEAD_BYTES: usize = 65536;

/// How far the head of an answer has been read.
#[derive(Debug, Clone, Copy, PartialEq, Eq, Structural)]
pub enum HeadProgress {
    /// The head is not complete: read on.
    More,
    /// The empty line that ends the head was read.
    Complete,
    /// The head is longer than allowed.
    TooLarge,
}

/// Whether `bytes` ends with the empty line that ends a head.
pub open spec fn ends_head(bytes: Seq<u8>) -> bool {
    &&& bytes.len() >= 4
    &&& bytes[bytes.len() - 4] == 13
    &&& bytes[bytes.len() - 3] == 10
    &&& bytes[bytes.len() - 2] == 13
    &&& bytes[bytes.len() - 1] == 10
}

/// How far a head is read once `bytes` have come in: a head of more bytes
/// than allowed is too large, whether it ends there or not.
pub open spec fn progress_of(bytes: Seq<u8>) -> HeadProgress {
    if bytes.len() > MAX_HEAD_BYTES {
        HeadProgress::TooLarge
    } else if ends_head(bytes) {
        HeadProgress::Complete
    } else {
        HeadProgress::More
    }
}

/// The bytes of a head, as far as they have come in.
pub struct HeadBuffer {
    bytes: Vec<u8>,
}

impl View for HeadBuffer {
    type V = Seq<u8>;

    closed spec fn view(&self) -> Seq<u8> {
        self.bytes@
    }
}

impl HeadBuffer {
    /// A buffer that holds nothing yet.
    pub fn new() -> (buffer: HeadBuffer)
        ensures
            buffer@ == Seq::<u8>::empty(),
    {
        HeadBuffer { bytes: Vec::new() }
    }

    /// Takes in the next byte and says how far the head is read.
    pub fn push(&mut self, byte: u8) -> (progress: HeadProgress)
        ensures
            final(self)@ == old(self)@.push(byte),
            progress == progress_of(final(self)@),
    {
        self.bytes.push(byte);
        let n: usize = self.bytes.len();
        if n > MAX_HEAD_BYTES {
            HeadProgress::TooLarge
        } else if n >= 4 && self.bytes[n - 4] == 13 && self.bytes[n - 3] == 10 && self.bytes[n
            - 2] == 13 && self.bytes[n - 1] == 10 {
            HeadProgress::Complete
        } else {
            HeadProgress::More
        }
    }

    /// The bytes that have come in.
    pub fn as_bytes(&self) -> (bytes: &[u8])
        ensures
            bytes@ == self@,
    {
        self.bytes.as_slice()
    }
}

/// The text that `String::from_utf8_lossy` makes of bytes.
pub uninterp spec fn utf8_lossy(bytes: Seq<u8>) -> Seq<char>;

/// The text that `str::to_lowercase` makes of a text.
pub uninterp spec fn unicode_lower(text: Seq<char>) -> Seq<char>;

/// Calls `String::from_utf8_lossy`, which reads `bytes` as UTF-8 and puts
/// the replacement character in place of what is not, and copies the
/// result into a `String`. The result is named, not described.
#[verifier::external_body]
fn lossy_text(bytes: &[u8]) -> (text: String)
    ensures
        text@ == utf8_lossy(bytes@),
{
    String::from_utf8_lossy(bytes).into_owned()
}

/// Calls `str::to_lowercase`, which gives the lower-case form of `text` by
/// the rules of Unicode. The result is named, not described.
#[verifier::external_body]
fn lowercase_text(text: &str) -> (lower: String)
    ensures
        lower@ == unicode_lower(text@),
{
    text.to_lowercase()
}

/// The first line of `s`, without its line end: a line ends with a line
/// feed, before which one carriage return is dropped too, or with `s`.
pub open spec fn first_line_of(s: Seq<char>) -> Seq<char> {
    let i = first_index(s, '\n');
    if i < s.len() && i > 0 && s[i - 1] == '\r' {
        s.take(i - 1)
    } else {
        s.take(i)
    }
}

/// What follows the first line of `s`.
pub open spec fn after_first_line(s: Seq<char>) -> Seq<char> {
    let i = first_index(s, '\n');
    if i < s.len() {
        s.skip(i + 1)
    } else {
        Seq::empty()
    }
}

/// How many characters stand before the first whitespace of `s`.
pub open spec fn word_len(s: Seq<char>) -> int
    decreases s.len(),
{
    if s.len() == 0 || is_whitespace(s[0]) {
        0
    } else {
        1 + word_len(s.drop_first())
    }
}

/// The second of the words that whitespace parts `line` into; empty where
/// there are fewer.
pub open spec fn second_word(line: Seq<char>) -> Seq<char> {
    let first = trim_start(line);
    let second = trim_start(first.skip(word_len(first)));
    second.take(word_len(second))
}

/// The status that a status line names: its second word as a number, and
/// 200 where that is no number of 16 bits.
pub open spec fn status_of(line: Seq<char>) -> u16 {
    match parse_unsigned(second_word(line), u16::MAX as nat) {
        Some(n) => n as u16,
        None => 200,
    }
}

/// The header that a line holds: the name, in lower case, is what stands
/// before the first colon and space, the value what follows them. A line
/// without them holds none.
pub open spec fn field_of(line: Seq<char>) -> Option<(Seq<char>, Seq<char>)> {
    let i = first_occurrence(line, ": "@);
    if i < line.len() {
        Some((unicode_lower(line.take(i)), line.skip(i + 2)))
    } else {
        None
    }
}

/// The headers that the lines of `text` hold, up to its first empty line.
pub open spec fn fields_of(text: Seq<char>) -> Seq<(Seq<char>, Seq<char>)>
    decreases text.len(),
    via fields_of_decreases
{
    if text.len() == 0 || first_line_of(text).len() == 0 {
        Seq::empty()
    } else {
        match field_of(first_line_of(text)) {
            Some(pair) => seq![pair] + fields_of(after_first_line(text)),
            None => fields_of(after_first_line(text)),
        }
    }
}

/// The text after the first line is shorter than the text.
#[via_fn]
proof fn fields_of_decreases(text: Seq<char>) {
    lemma_first_index(text, '\n');
}

/// The status and the headers of an answer whose head is `text`: the
/// status that the first line names, and the headers of the lines that
/// follow it.
pub open spec fn response_head_spec(text: Seq<char>) -> (u16, Seq<(Seq<char>, Seq<char>)>) {
    (status_of(first_line_of(text)), fields_of(after_first_line(text)))
}

/// The bounds of the first line of `v[from..]`, and where the next line
/// starts.
fn next_line(v: &Vec<char>, from: usize) -> (r: (usize, usize))
    requires
        from <= v.len(),
    ensures
        from <= r.0 <= r.1 <= v.len(),
        v@.subrange(from as int, r.0 as int) == first_line_of(v@.skip(from as int)),
        v@.skip(r.1 as int) == after_first_line(v@.skip(from as int)),
        from < v.len() ==> r.1 > from,
{
    let n: usize = v.len();
    let ghost s = v@.skip(from as int);
    assert(s =~= v@.subrange(from as int, n as int));
    let i = find_char(v, from, n, '\n');
    proof {
        lemma_first_index(s, '\n');
    }
    if i < n {
        assert(v@.skip(i + 1) =~= s.skip(i - from + 1));
        if i > from && v[i - 1] == '\r' {
            assert(v@.subrange(from as int, i - 1) =~= s.take(i - from - 1));
            (i - 1, i + 1)
        } else {
            assert(v@.subrange(from as int, i as int) =~= s.take(i - from));
            (i, i + 1)
        }
    } else {
        assert(v@.subrange(from as int, n as int) =~= s.take(n - from));
        assert(v@.skip(n as int) =~= Seq::<char>::empty());
        (n, n)
    }
}

/// The position up to which `v[from..to]` holds whitespace.
fn skip_whitespace(v: &Vec<char>, from: usize, to: usize) -> (i: usize)
    requires
        from <= to <= v.len(),
    ensures
        from <= i <= to,
        v@.subrange(i as int, to as int) == trim_start(v@.subrange(from as int, to as int)),
{
    let mut i: usize = from;
    while i < to && char_is_whitespace(v[i])
        invariant
            from <= i <= to <= v.len(),
            trim_start(v@.subrange(i as int, to as int)) == trim_start(
                v@.subrange(from as int, to as int),
            ),
        decreases to - i,
    {
        assert(v@.subrange(i as int, to as int).drop_first() =~= v@.subrange(i + 1, to as int));
        i = i + 1;
    }
    i
}

/// The position at which the word that starts `v[from..to]` ends.
fn word_end(v: &Vec<char>, from: usize, to: usize) -> (i: usize)
    requires
        from <= to <= v.len(),
    ensures
        from <= i <= to,
        i - from == word_len(v@.subrange(from as int, to as int)),
{
    let mut i: usize = from;
    while i < to && !char_is_whitespace(v[i])
        invariant
            from <= i <= to <= v.len(),
            word_len(v@.subrange(from as int, to as int)) == (i - from) + word_len(
                v@.subrange(i as int, to as int),
            ),
        decreases to - i,
    {
        assert(v@.subrange(i as int, to as int).drop_first() =~= v@.subrange(i + 1, to as int));
        i = i + 1;
    }
    i
}

/// The status that the status line `v[from..to]` names.
fn status_in(v: &Vec<char>, from: usize, to: usize) -> (status: u16)
    requires
        from <= to <= v.len(),
    ensures
        status == status_of(v@.subrange(from as int, to as int)),
{
    let a = skip_whitespace(v, from, to);
    let b = word_end(v, a, to);
    let ghost first = v@.subrange(a as int, to as int);
    assert(first.skip(b - a) =~= v@.subrange(b as int, to as int));
    let c = skip_whitespace(v, b, to);
    let d = word_end(v, c, to);
    let ghost second = v@.subrange(c as int, to as int);
    assert(second.take(d - c) =~= v@.subrange(c as int, d as int));
    match parse_unsigned_range(v, c, d, 65535) {
        Some(n) => n as u16,
        None => 200,
    }
}

/// Reads the status and the headers from the head `text` of an answer.
pub fn parse_response_head(text: &str) -> (head: (u16, Vec<(String, String)>))
    ensures
        (head.0, pair_views(head.1@)) == response_head_spec(text@),
{
    let v = chars_of(text);
    let n: usize = v.len();
    let separator = chars_of(": ");
    proof {
        reveal_strlit(": ");
        assert(v@.skip(0) =~= v@);
    }
    let (end, next) = next_line(&v, 0);
    let status = status_in(&v, 0, end);
    let mut fields: Vec<(String, String)> = Vec::new();
    let mut pos: usize = next;
    let ghost all = fields_of(v@.skip(next as int));
    assert(pair_views(fields@) + fields_of(v@.skip(pos as int)) =~= all);
    while pos < n
        invariant
            pos <= n == v.len(),
            separator@ == ": "@,
            separator@.len() == 2,
            pair_views(fields@) + fields_of(v@.skip(pos as int)) == all,
        ensures
            pair_views(fields@) == all,
        decreases n - pos,
    {
        let ghost rest = v@.skip(pos as int);
        let (line_end, after) = next_line(&v, pos);
        if line_end == pos {
            assert(pair_views(fields@) + Seq::<(Seq<char>, Seq<char>)>::empty() =~= pair_views(
                fields@,
            ));
            break ;
        }
        let ghost line = v@.subrange(pos as int, line_end as int);
        let at = find_seq(&v, pos, line_end, &separator);
        proof {
            lemma_first_occurrence(line, separator@);
        }
        if at < line_end {
            let name = lowercase_text(string_of_range(&v, pos, at).as_str());
            let value = string_of_range(&v, at + 2, line_end);
            let ghost before = pair_views(fields@);
            let ghost pair = (name@, value@);
            assert(line.take(at - pos) =~= v@.subrange(pos as int, at as int));
            assert(line.skip(at - pos + 2) =~= v@.subrange(at + 2, line_end as int));
            assert(field_of(line) == Some(pair));
            fields.push((name, value));
            assert(pair_views(fields@) =~= before.push(pair));
            assert(pair_views(fields@) + fields_of(v@.skip(after as int)) =~= before + (seq![pair]
                + fields_of(after_first_line(rest))));
        }
        pos = after;
    }
    proof {
        if pos >= n {
            assert(pair_views(fields@) + Seq::<(Seq<char>, Seq<char>)>::empty() =~= pair_views(
                fields@,
            ));
        }
    }
    (status, fields)
}

/// How far a head is read of which `bytes` have come in.
pub fn progress(bytes: &[u8]) -> (progress: HeadProgress)
    ensures
        progress == progress_of(bytes@),
{
    let n: usize = bytes.len();
    if n > MAX_HEAD_BYTES {
        HeadProgress::TooLarge
    } else if n >= 4 && bytes[n - 4] == 13 && bytes[n - 3] == 10 && bytes[n - 2] == 13 && bytes[n
        - 1] == 10 {
        HeadProgress::Complete
    } else {
        HeadProgress::More
    }
}

/// Reads the status and the headers from the bytes `bytes` of the head of
/// an answer, read as text. Bytes that are no complete head, or more than
/// a head may have, are refused.
pub fn read_http_headers(bytes: &[u8]) -> (head: Option<(u16, Vec<(String, String)>)>)
    ensures
        match head {
            Some(h) => progress_of(bytes@) == HeadProgress::Complete && (h.0, pair_views(h.1@))
                == response_head_spec(utf8_lossy(bytes@)),
            None => progress_of(bytes@) != HeadProgress::Complete,
        },
{
    match progress(bytes) {
        HeadProgress::Complete => {
            let text = lossy_text(bytes);
            Some(parse_response_head(text.as_str()))
        },
        _ => None,
    }
}

} // verus!
