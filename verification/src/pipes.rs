//! What the library computes on the data that flows through the pipes of a
//! child process: decoding its standard output, rebuilding the lines that a
//! filter printed, and reading its exit status.

use vstd::prelude::*;
use vstd::utf8::{decode_utf8, valid_utf8};

verus! {

/// The bytes that a child process wrote could not be read as text.
#[derive(Debug, PartialEq, Eq, Structural)]
pub enum OutputError {
    /// The output is not valid UTF-8.
    InvalidUtf8,
}

/// The string that `bytes` encode, if they are valid UTF-8.
///
/// Trusted: calls `String::from_utf8`, which std documents as succeeding
/// exactly on valid UTF-8 and then holding the characters that the bytes
/// encode; the contract claims that and nothing more.
#[verifier::external_body]
fn string_from_utf8(bytes: Vec<u8>) -> (r: Option<String>)
    ensures
        r is Some <==> valid_utf8(bytes@),
        r matches Some(s) ==> s@ == decode_utf8(bytes@),
{
    String::from_utf8(bytes).ok()
}

/// The text that a child process wrote to its standard output; an error
/// exactly when the bytes are not valid UTF-8.
pub fn decode_output(stdout: Vec<u8>) -> (r: Result<String, OutputError>)
    ensures
        r is Ok <==> valid_utf8(stdout@),
        r matches Ok(s) ==> s@ == decode_utf8(stdout@),
        r matches Err(e) ==> e == OutputError::InvalidUtf8,
{
    match string_from_utf8(stdout) {
        Some(s) => Ok(s),
        None => Err(OutputError::InvalidUtf8),
    }
}

/// The exit code of a child process, or -1 where it has none (it was
/// ended by a signal).
pub fn exit_code_or_default(code: Option<i32>) -> (r: i32)
    ensures
        r == match code {
            Some(c) => c,
            None => -1i32,
        },
{
    code.unwrap_or(-1)
}

/// The text made of `lines`, each followed by a newline.
pub open spec fn lines_text(lines: Seq<Seq<char>>) -> Seq<char>
    decreases lines.len(),
{
    if lines.len() == 0 {
        Seq::empty()
    } else {
        lines_text(lines.drop_last()) + lines.last() + seq!['\n']
    }
}

/// The views of a list of strings.
pub open spec fn texts_view(lines: Seq<String>) -> Seq<Seq<char>> {
    lines.map_values(|l: String| l@)
}

/// No lines make no text.
pub proof fn law_lines_text_empty()
    ensures
        lines_text(Seq::empty()) == Seq::<char>::empty(),
{
}

/// One more line adds that line and a newline to the end of the text, and
/// nothing else, whatever the lines before it were.
pub proof fn law_lines_text_push(lines: Seq<Seq<char>>, line: Seq<char>)
    ensures
        lines_text(lines.push(line)) == lines_text(lines) + line + seq!['\n'],
{
    assert(lines.push(line).drop_last() =~= lines);
}

/// The text of two runs of lines is the text of the first run followed by
/// the text of the second: every line is kept, in order.
pub proof fn law_lines_text_concat(a: Seq<Seq<char>>, b: Seq<Seq<char>>)
    ensures
        lines_text(a + b) == lines_text(a) + lines_text(b),
    decreases b.len(),
{
    if b.len() == 0 {
        assert(a + b =~= a);
        assert(lines_text(a) + lines_text(b) =~= lines_text(a));
    } else {
        law_lines_text_concat(a, b.drop_last());
        assert((a + b).drop_last() =~= a + b.drop_last());
        assert(lines_text(a) + lines_text(b) =~= lines_text(a) + lines_text(b.drop_last()) + b.last() + seq!['\n']);
    }
}

/// The total length of the text that a run of lines makes.
pub open spec fn lines_len(lines: Seq<Seq<char>>) -> nat
    decreases lines.len(),
{
    if lines.len() == 0 {
        0
    } else {
        lines_len(lines.drop_last()) + lines.last().len() + 1
    }
}

/// The text is exactly as long as all lines together plus one newline per
/// line.
pub proof fn law_lines_text_len(lines: Seq<Seq<char>>)
    ensures
        lines_text(lines).len() == lines_len(lines),
    decreases lines.len(),
{
    if lines.len() > 0 {
        law_lines_text_len(lines.drop_last());
    }
}

/// Put back together the lines that a line reader split off a child's
/// output (it drops the line ends): each line followed by `'\n'`.
pub fn join_lines(lines: &Vec<String>) -> (text: String)
    ensures
        text@ == lines_text(texts_view(lines@)),
        text@.len() == lines_len(texts_view(lines@)),
{
    let mut result = String::new();
    let mut i: usize = 0;
    while i < lines.len()
        invariant
            i <= lines.len(),
            result@ == lines_text(texts_view(lines@.subrange(0, i as int))),
        decreases lines.len() - i,
    {
        result.append(lines[i].as_str());
        result.append("\n");
        proof {
            reveal_strlit("\n");
            let done = texts_view(lines@.subrange(0, i + 1));
            assert(done.drop_last() =~= texts_view(lines@.subrange(0, i as int)));
            assert(done.last() == lines@[i as int]@);
        }
        i += 1;
    }
    proof {
        assert(lines@.subrange(0, lines.len() as int) =~= lines@);
        law_lines_text_len(texts_view(lines@));
    }
    result
}

} // verus!
