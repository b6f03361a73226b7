//! Finding the status code among the header lines of a response.

use crate::response::{chars_of, line_texts};
use vstd::prelude::*;
use vstd::string::*;

verus! {

/// What the first capture group of the regular expression `pattern` holds in
/// the leftmost match within `text`; `None` where the pattern is not a valid
/// expression, where nothing matches, or where the group took no part.
pub uninterp spec fn regex_first_group(pattern: Seq<char>, text: Seq<char>) -> Option<Seq<char>>;

/// The pattern of a status line: the protocol version, a blank, and the
/// digits of the code as the first group.
pub open spec fn status_pattern() -> Seq<char> {
    "HTTP/1\\.[01] ([0-9]+)"@
}

/// Whether `c` is one of the ten decimal digits.
pub open spec fn is_digit(c: char) -> bool {
    '0' <= c && c <= '9'
}

/// Whether `s` holds decimal digits only.
pub open spec fn all_digits(s: Seq<char>) -> bool {
    forall|i: int| 0 <= i < s.len() ==> is_digit(#[trigger] s[i])
}

/// The number that the digits of `s` spell in base ten.
pub open spec fn decimal_value(s: Seq<char>) -> nat
    decreases s.len(),
{
    if s.len() == 0 {
        0
    } else {
        decimal_value(s.drop_last()) * 10 + (s.last() as nat - '0' as nat) as nat
    }
}

/// Whether `s` spells a code: at least one digit, digits only, and a value
/// that 32 bits hold.
pub open spec fn spells_code(s: Seq<char>) -> bool {
    s.len() > 0 && all_digits(s) && decimal_value(s) <= u32::MAX
}

/// The code that a captured group gives, if it gives one.
pub open spec fn code_of(group: Option<Seq<char>>) -> Option<u32> {
    match group {
        Some(digits) => if spells_code(digits) {
            Some(decimal_value(digits) as u32)
        } else {
            None
        },
        None => None,
    }
}

/// The code that a header line states, if it is a status line.
pub open spec fn line_code(line: Seq<char>) -> Option<u32> {
    code_of(regex_first_group(status_pattern(), line))
}

/// The code of the first status line at or after `from`, or 0 where no line
/// states one.
pub open spec fn header_code(lines: Seq<Seq<char>>, from: int) -> u32
    decreases lines.len() - from,
{
    if from < 0 || from >= lines.len() {
        0
    } else {
        match line_code(lines[from]) {
            Some(code) => code,
            None => header_code(lines, from + 1),
        }
    }
}

/// Compiles `pattern` with `Regex::new` and searches `text` with
/// `Regex::captures`. The result is the text of the first capture group of
/// the leftmost match. It is `None` where the pattern does not compile, where
/// nothing matches and where the group is not part of the match. Both depend
/// on the two arguments alone; what the group holds is not stated here.
#[verifier::external_body]
fn first_group(pattern: &str, text: &str) -> (group: Option<String>)
    ensures
        match group {
            Some(found) => regex_first_group(pattern@, text@) == Some(found@),
            None => regex_first_group(pattern@, text@) is None,
        },
{
    match regex::Regex::new(pattern) {
        Ok(re) => re.captures(text).and_then(|found| found.get(1)).map(
            |group| group.as_str().to_string(),
        ),
        Err(_) => None,
    }
}

/// A number grows, or stays, when a digit is written behind it.
proof fn lemma_prefix_value(s: Seq<char>, count: int)
    requires
        0 <= count <= s.len(),
    ensures
        decimal_value(s.take(count)) <= decimal_value(s),
    decreases s.len() - count,
{
    if count < s.len() {
        lemma_prefix_value(s, count + 1);
        assert(s.take(count + 1).drop_last() =~= s.take(count));
    } else {
        assert(s.take(count) =~= s);
    }
}

/// Reads a run of decimal digits as a number. Anything but a non-empty run of
/// digits whose value 32 bits hold gives `None`.
pub fn parse_code(digits: &str) -> (code: Option<u32>)
    ensures
        code == code_of(Some(digits@)),
{
    let chars = chars_of(digits);
    let n: usize = chars.len();
    if n == 0 {
        return None;
    }
    let mut value: u64 = 0;
    let mut i: usize = 0;
    while i < n
        invariant
            i <= n,
            n == chars@.len(),
            chars@ == digits@,
            all_digits(chars@.take(i as int)),
            value == decimal_value(chars@.take(i as int)),
            value <= u32::MAX,
        decreases n - i,
    {
        let c: char = chars[i];
        if c < '0' || c > '9' {
            return None;
        }
        let digit: u64 = (c as u32 - '0' as u32) as u64;
        value = value * 10 + digit;
        proof {
            assert(chars@.take(i + 1).drop_last() =~= chars@.take(i as int));
            assert(chars@.take(i + 1).last() == c);
            lemma_prefix_value(chars@, i + 1);
        }
        if value > 0xffff_ffff {
            return None;
        }
        i += 1;
    }
    assert(chars@.take(n as int) =~= chars@);
    Some(value as u32)
}

/// The code that a captured group gives: the number that its digits spell.
pub fn code_of_group(group: Option<String>) -> (code: Option<u32>)
    ensures
        code == code_of(
            match group {
                Some(digits) => Some(digits@),
                None => None,
            },
        ),
{
    match group {
        Some(digits) => parse_code(digits.as_str()),
        None => None,
    }
}

/// The status code that a header line states: the digits that follow
/// `HTTP/1.0 ` or `HTTP/1.1 ` where they first stand in the line.
pub fn status_of_line(line: &str) -> (code: Option<u32>)
    ensures
        code == line_code(line@),
{
    code_of_group(first_group("HTTP/1\\.[01] ([0-9]+)", line))
}

/// The status code of a response: that of the first header line that states
/// one, and 0 where none does.
pub fn status_code(header: &Vec<String>) -> (code: u32)
    ensures
        code == header_code(line_texts(header@), 0),
{
    let ghost lines = line_texts(header@);
    let n: usize = header.len();
    let mut i: usize = 0;
    while i < n
        invariant
            i <= n,
            n == header@.len(),
            lines == line_texts(header@),
            header_code(lines, 0) == header_code(lines, i as int),
        decreases n - i,
    {
        match status_of_line(header[i].as_str()) {
            Some(code) => {
                return code;
            },
            None => {},
        }
        i += 1;
    }
    0
}

} // verus!
