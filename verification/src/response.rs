//! Framing of the request that is sent and decoding of the raw text that
//! comes back: lines end in a carriage return and a line feed, and the first
//! empty line parts the header from the body.

use vstd::prelude::*;
use vstd::std_specs::iter::IteratorSpec;
use vstd::string::*;

verus! {

/// Whether a line terminator begins at index `i` of `s`.
pub open spec fn crlf_at(s: Seq<char>, i: int) -> bool {
    0 <= i && i + 1 < s.len() && s[i] == '\r' && s[i + 1] == '\n'
}

/// The index of the first line terminator of `s` at or after `from`, or the
/// length of `s` where none follows.
pub open spec fn next_break(s: Seq<char>, from: int) -> int
    decreases s.len() - from,
{
    if from < 0 || from + 1 >= s.len() {
        s.len() as int
    } else if crlf_at(s, from) {
        from
    } else {
        next_break(s, from + 1)
    }
}

/// The lines of `s` from index `from` on: the pieces between line
/// terminators, the last one reaching to the end of `s`.
pub open spec fn lines_from(s: Seq<char>, from: int) -> Seq<Seq<char>>
    decreases s.len() - from,
{
    let at = next_break(s, from);
    if from < 0 || at < from || at + 2 > s.len() {
        seq![s.subrange(from, s.len() as int)]
    } else {
        seq![s.subrange(from, at)] + lines_from(s, at + 2)
    }
}

/// The lines of a text.
pub open spec fn lines_of(s: Seq<char>) -> Seq<Seq<char>> {
    lines_from(s, 0)
}

/// The lines joined again, with a line terminator between each two.
pub open spec fn join_lines(lines: Seq<Seq<char>>) -> Seq<char>
    decreases lines.len(),
{
    if lines.len() == 0 {
        Seq::empty()
    } else if lines.len() == 1 {
        lines[0]
    } else {
        lines[0] + seq!['\r', '\n'] + join_lines(lines.drop_first())
    }
}

/// What each string of a sequence holds.
pub open spec fn line_texts(lines: Seq<String>) -> Seq<Seq<char>> {
    Seq::new(lines.len(), |i: int| lines[i]@)
}

/// What each string slice of a sequence holds.
pub open spec fn texts(lines: Seq<&str>) -> Seq<Seq<char>> {
    Seq::new(lines.len(), |i: int| lines[i]@)
}

/// The index of the first empty line at or after `from`, or the number of
/// lines where none follows.
pub open spec fn first_blank(lines: Seq<Seq<char>>, from: int) -> int
    decreases lines.len() - from,
{
    if from < 0 || from >= lines.len() {
        lines.len() as int
    } else if lines[from].len() == 0 {
        from
    } else {
        first_blank(lines, from + 1)
    }
}

/// Whether a text holds an empty line, which parts header and body.
pub open spec fn has_separator(raw: Seq<char>) -> bool {
    first_blank(lines_of(raw), 0) < lines_of(raw).len()
}

/// The header lines of a text: its lines before the first empty one.
pub open spec fn header_of(raw: Seq<char>) -> Seq<Seq<char>> {
    lines_of(raw).take(first_blank(lines_of(raw), 0))
}

/// The body of a text: the line after the first empty one, and nothing where
/// the text ends with the empty line.
pub open spec fn body_of(raw: Seq<char>) -> Seq<char> {
    let lines = lines_of(raw);
    let at = first_blank(lines, 0);
    if at + 1 < lines.len() {
        lines[at + 1]
    } else {
        Seq::empty()
    }
}

/// The request for `path` on `host`, as it goes over the wire.
pub open spec fn request_text(host: Seq<char>, path: Seq<char>) -> Seq<char> {
    "GET "@ + path + " HTTP/1.0\r\nHost: "@ + host + "\r\nAccept: */*\r\n\r\n"@
}

/// A decoded response: the header lines in their order, and the body.
pub struct HTTPSResponse {
    pub header: Vec<String>,
    pub body: String,
}

impl HTTPSResponse {
    /// What the header lines hold.
    pub open spec fn header_lines(&self) -> Seq<Seq<char>> {
        line_texts(self.header@)
    }
}

/// A response without an empty line between header and body. It carries the
/// whole text that could not be decoded.
#[derive(Debug)]
pub struct ParseError {
    pub response: String,
}

impl ParseError {
    pub fn new(response: String) -> (e: Self)
        ensures
            e.response == response,
    {
        Self { response }
    }

    /// The error in words, with the text that could not be decoded.
    pub fn message(&self) -> (text: String)
        ensures
            text@ == "Cannot parse response: "@ + self.response@,
    {
        String::from_str("Cannot parse response: ").concat(self.response.as_str())
    }
}

/// `next_break` finds a line terminator, and the first one.
pub proof fn lemma_next_break(s: Seq<char>, from: int)
    requires
        0 <= from <= s.len(),
    ensures
        from <= next_break(s, from) <= s.len(),
        next_break(s, from) < s.len() ==> crlf_at(s, next_break(s, from)),
        forall|k: int| from <= k < next_break(s, from) ==> !crlf_at(s, k),
    decreases s.len() - from,
{
    if from + 1 < s.len() && !crlf_at(s, from) {
        lemma_next_break(s, from + 1);
    }
}

/// `first_blank` finds an empty line, and the first one.
pub proof fn lemma_first_blank(lines: Seq<Seq<char>>, from: int)
    requires
        0 <= from <= lines.len(),
    ensures
        from <= first_blank(lines, from) <= lines.len(),
        first_blank(lines, from) < lines.len() ==> lines[first_blank(lines, from)].len() == 0,
        forall|k: int| from <= k < first_blank(lines, from) ==> lines[k].len() != 0,
    decreases lines.len() - from,
{
    if from < lines.len() && lines[from].len() != 0 {
        lemma_first_blank(lines, from + 1);
    }
}

/// No header line is empty: the header ends before the first empty line.
pub proof fn lemma_header_has_no_blank(raw: Seq<char>)
    ensures
        header_of(raw).len() == first_blank(lines_of(raw), 0),
        forall|i: int| 0 <= i < header_of(raw).len() ==> (#[trigger] header_of(raw)[i]).len() > 0,
{
    lemma_first_blank(lines_of(raw), 0);
}

/// The characters of a string, one by one.
pub(crate) fn chars_of(s: &str) -> (out: Vec<char>)
    ensures
        out@ == s@,
{
    let mut out: Vec<char> = Vec::new();
    let mut rest = s.chars();
    loop
        invariant
            out@ + rest.remaining() =~= s@,
            rest.decrease() is Some,
        ensures
            out@ =~= s@,
        decreases rest.decrease()->0,
    {
        let ghost before = rest.remaining();
        match rest.next() {
            Some(c) => {
                out.push(c);
                assert(before =~= seq![c] + rest.remaining());
            },
            None => {
                assert(before.len() == 0);
                assert(out@ =~= s@);
                break;
            },
        }
    }
    out
}

/// Splits a text at each line terminator. A text without one is a single
/// line; a text that ends with one has an empty last line.
pub fn split_lines<'a>(raw: &'a str) -> (lines: Vec<&'a str>)
    ensures
        texts(lines@) == lines_of(raw@),
{
    let chars = chars_of(raw);
    let n: usize = chars.len();
    let mut lines: Vec<&'a str> = Vec::new();
    let mut start: usize = 0;
    let mut i: usize = 0;
    assert(texts(lines@) + lines_from(raw@, 0) =~= lines_of(raw@));
    while n - i >= 2
        invariant
            start <= i <= n,
            n == raw@.len(),
            chars@ == raw@,
            lines_of(raw@) == texts(lines@) + lines_from(raw@, start as int),
            next_break(raw@, start as int) == next_break(raw@, i as int),
        decreases n - i,
    {
        if chars[i] == '\r' && chars[i + 1] == '\n' {
            let ghost before = lines@;
            let line = raw.substring_char(start, i);
            lines.push(line);
            proof {
                assert(next_break(raw@, start as int) == i);
                assert(texts(lines@) =~= texts(before) + seq![line@]);
                assert(texts(lines@) + lines_from(raw@, i + 2) =~= texts(before) + lines_from(
                    raw@,
                    start as int,
                ));
            }
            i = i + 2;
            start = i;
        } else {
            i = i + 1;
        }
    }
    let ghost before = lines@;
    let line = raw.substring_char(start, n);
    lines.push(line);
    proof {
        assert(next_break(raw@, i as int) == n);
        assert(texts(lines@) =~= texts(before) + seq![line@]);
    }
    lines
}

/// Finds the first empty string of a slice.
pub fn find_first_blank_string(arr: &[&str]) -> (found: Option<usize>)
    ensures
        match found {
            Some(i) => i < arr@.len() && i == first_blank(texts(arr@), 0),
            None => first_blank(texts(arr@), 0) == arr@.len(),
        },
{
    let n: usize = arr.len();
    let mut i: usize = 0;
    while i < n
        invariant
            i <= n,
            n == arr@.len(),
            first_blank(texts(arr@), 0) == first_blank(texts(arr@), i as int),
        decreases n - i,
    {
        if arr[i].is_empty() {
            return Some(i);
        }
        i += 1;
    }
    None
}

/// Builds the request for `path` on host `domain`: the request line, the host
/// line, a line that accepts any content, and the empty line that ends it.
pub fn build_request(domain: &str, path: &str) -> (request: String)
    ensures
        request@ == request_text(domain@, path@),
{
    String::from_str("GET ").concat(path).concat(" HTTP/1.0\r\nHost: ").concat(domain).concat(
        "\r\nAccept: */*\r\n\r\n",
    )
}

/// Decodes a raw response. The lines before the first empty line are the
/// header; the line after it is the body, and what follows that line is
/// dropped. A text without an empty line is refused, and the error carries it.
pub fn parse_response(raw: &str) -> (decoded: Result<HTTPSResponse, ParseError>)
    ensures
        has_separator(raw@) ==> decoded is Ok && decoded->Ok_0.header_lines() == header_of(raw@)
            && decoded->Ok_0.body@ == body_of(raw@),
        !has_separator(raw@) ==> decoded is Err && decoded->Err_0.response@ == raw@,
{
    let lines = split_lines(raw);
    match find_first_blank_string(lines.as_slice()) {
        None => Err(ParseError::new(String::from_str(raw))),
        Some(at) => {
            let mut header: Vec<String> = Vec::new();
            let mut i: usize = 0;
            while i < at
                invariant
                    i <= at < lines@.len(),
                    header@.len() == i,
                    forall|k: int| 0 <= k < i ==> header@[k]@ == lines@[k]@,
                decreases at - i,
            {
                header.push(String::from_str(lines[i]));
                i += 1;
            }
            let body = if lines.len() - at > 1 {
                String::from_str(lines[at + 1])
            } else {
                String::new()
            };
            let decoded = HTTPSResponse { header, body };
            assert(decoded.header_lines() =~= header_of(raw@));
            Ok(decoded)
        },
    }
}

/// The lines of `s` from `from` on, joined again, are that part of `s`.
proof fn lemma_join_from(s: Seq<char>, from: int)
    requires
        0 <= from <= s.len(),
    ensures
        join_lines(lines_from(s, from)) == s.subrange(from, s.len() as int),
    decreases s.len() - from,
{
    let at = next_break(s, from);
    lemma_next_break(s, from);
    if at + 2 <= s.len() {
        lemma_join_from(s, at + 2);
        let rest = lines_from(s, at + 2);
        let lines = lines_from(s, from);
        assert(rest.len() >= 1);
        assert(lines.drop_first() =~= rest);
        assert(s.subrange(from, at) + seq!['\r', '\n'] + s.subrange(at + 2, s.len() as int)
            =~= s.subrange(from, s.len() as int));
    }
}

/// A text is its lines joined by line terminators: splitting loses nothing.
pub proof fn lemma_join_lines_of(raw: Seq<char>)
    ensures
        lines_of(raw).len() >= 1,
        join_lines(lines_of(raw)) == raw,
{
    lemma_join_from(raw, 0);
    assert(raw.subrange(0, raw.len() as int) =~= raw);
}

/// The first `count` lines of `s` from `from` on, joined again, are how that
/// part of `s` begins.
proof fn lemma_join_is_prefix(s: Seq<char>, from: int, count: int)
    requires
        0 <= from <= s.len(),
        1 <= count <= lines_from(s, from).len(),
    ensures
        join_lines(lines_from(s, from).take(count)).is_prefix_of(s.subrange(from, s.len() as int)),
    decreases s.len() - from,
{
    let whole = s.subrange(from, s.len() as int);
    let lines = lines_from(s, from);
    let at = next_break(s, from);
    lemma_next_break(s, from);
    if at + 2 > s.len() {
        assert(lines.take(count) =~= seq![whole]);
        assert(whole.subrange(0, whole.len() as int) =~= whole);
    } else {
        let head = s.subrange(from, at);
        let rest = lines_from(s, at + 2);
        if count == 1 {
            assert(lines.take(count) =~= seq![head]);
            assert(head =~= whole.subrange(0, head.len() as int));
        } else {
            lemma_join_is_prefix(s, at + 2, count - 1);
            let tail = join_lines(rest.take(count - 1));
            assert(lines.take(count).drop_first() =~= rest.take(count - 1));
            assert(lines.take(count)[0] == head);
            let joined = head + seq!['\r', '\n'] + tail;
            assert(join_lines(lines.take(count)) == joined);
            let after = s.subrange(at + 2, s.len() as int);
            assert(tail =~= after.subrange(0, tail.len() as int));
            assert(joined =~= whole.subrange(0, joined.len() as int));
        }
    }
}

/// Of a text with an empty line and a line after it: the header lines, the
/// empty line and the body, joined by line terminators, are how the text
/// begins.
pub proof fn lemma_decoded_is_prefix(raw: Seq<char>)
    requires
        first_blank(lines_of(raw), 0) + 1 < lines_of(raw).len(),
    ensures
        has_separator(raw),
        join_lines(header_of(raw) + seq![Seq::<char>::empty(), body_of(raw)]).is_prefix_of(raw),
{
    let lines = lines_of(raw);
    let at = first_blank(lines, 0);
    lemma_first_blank(lines, 0);
    assert(lines[at] =~= Seq::<char>::empty());
    assert(header_of(raw) + seq![Seq::<char>::empty(), body_of(raw)] =~= lines.take(at + 2));
    lemma_join_is_prefix(raw, 0, at + 2);
    assert(raw.subrange(0, raw.len() as int) =~= raw);
}

} // verus!
