//! Coloring of mock error messages for a terminal, with ANSI escape sequences.
use vstd::prelude::*;

use termcolor::{Buffer, Color, ColorSpec, WriteColor};
use std::io::Write;
use vstd::utf8::encode_utf8;

use crate::mock_interface::MockError;
use crate::text::{chars_of, find_in, first_occurrence, lossy_text, string_of};

verus! {

#[verifier::external_type_specification]
#[verifier::external_body]
pub struct ExBuffer(termcolor::Buffer);

#[verifier::external_type_specification]
#[verifier::external_body]
pub struct ExIoError(std::io::Error);

/// The bytes that a buffer holds.
pub uninterp spec fn buffer_bytes(b: Buffer) -> Seq<u8>;

/// Whether a buffer writes colors as ANSI escape sequences.
pub uninterp spec fn buffer_is_ansi(b: Buffer) -> bool;

/// The colors of a colored message.
#[derive(Debug, Clone, Copy, PartialEq, Eq, Structural)]
pub enum Paint {
    Red,
    Yellow,
    Blue,
}

/// The escape sequence that resets all colors and styles.
pub open spec fn reset_sequence() -> Seq<char> {
    seq!['\u{1b}', '[', '0', 'm']
}

/// The escape sequences that a buffer writes for a color (after a reset), and for bold.
pub open spec fn color_sequence(color: Paint, bold: bool) -> Seq<char> {
    let digit = match color {
        Paint::Red => '1',
        Paint::Yellow => '3',
        Paint::Blue => '4',
    };
    reset_sequence() + (if bold {
        seq!['\u{1b}', '[', '1', 'm']
    } else {
        Seq::empty()
    }) + seq!['\u{1b}', '[', '3', digit, 'm']
}

/// `termcolor::Buffer::ansi`: an empty buffer that writes colors as ANSI escape sequences.
#[verifier::external_body]
fn ansi_buffer() -> (b: Buffer)
    ensures
        buffer_bytes(b) == Seq::<u8>::empty(),
        buffer_is_ansi(b),
{
    Buffer::ansi()
}

/// `WriteColor::set_color` of `termcolor::Buffer`, with a fresh `ColorSpec` whose foreground
/// color is `color` and which is bold if `bold` is: on an ANSI buffer it appends the reset
/// sequence (a fresh spec resets), the bold sequence if bold, and the color's sequence, to the
/// buffer's `Vec<u8>`, which cannot fail. Of other buffers only the kind is stated.
#[verifier::external_body]
fn set_color(buf: &mut Buffer, color: Paint, bold: bool) -> (r: Result<(), std::io::Error>)
    ensures
        buffer_is_ansi(*final(buf)) == buffer_is_ansi(*old(buf)),
        buffer_is_ansi(*old(buf)) ==> r is Ok && buffer_bytes(*final(buf)) == buffer_bytes(
            *old(buf),
        ) + encode_utf8(color_sequence(color, bold)),
{
    let c = match color {
        Paint::Red => Color::Red,
        Paint::Yellow => Color::Yellow,
        Paint::Blue => Color::Blue,
    };
    buf.set_color(ColorSpec::new().set_fg(Some(c)).set_bold(bold))
}

/// `WriteColor::reset` of `termcolor::Buffer`: on an ANSI buffer it appends the reset sequence
/// to the buffer's `Vec<u8>`, which cannot fail. Of other buffers only the kind is stated.
#[verifier::external_body]
fn reset_color(buf: &mut Buffer) -> (r: Result<(), std::io::Error>)
    ensures
        buffer_is_ansi(*final(buf)) == buffer_is_ansi(*old(buf)),
        buffer_is_ansi(*old(buf)) ==> r is Ok && buffer_bytes(*final(buf)) == buffer_bytes(
            *old(buf),
        ) + encode_utf8(reset_sequence()),
{
    buf.reset()
}

/// `write!` of a text into a `termcolor::Buffer`: on an ANSI buffer it appends the UTF-8 bytes
/// of the text to the buffer's `Vec<u8>`, which cannot fail. Of other buffers only the kind is
/// stated.
#[verifier::external_body]
fn write_text(buf: &mut Buffer, s: &str) -> (r: Result<(), std::io::Error>)
    ensures
        buffer_is_ansi(*final(buf)) == buffer_is_ansi(*old(buf)),
        buffer_is_ansi(*old(buf)) ==> r is Ok && buffer_bytes(*final(buf)) == buffer_bytes(
            *old(buf),
        ) + encode_utf8(s@),
{
    write!(buf, "{}", s)
}

/// `termcolor::Buffer::as_slice`: the bytes that the buffer holds.
#[verifier::external_body]
fn buffer_slice(buf: &Buffer) -> (r: &[u8])
    ensures
        r@ == buffer_bytes(*buf),
{
    buf.as_slice()
}

/// The lines of `s`: the parts between the line breaks `\n` (one more than there are breaks).
pub open spec fn lines_of(s: Seq<char>) -> Seq<Seq<char>>
    decreases s.len(),
{
    if s.len() == 0 {
        seq![Seq::empty()]
    } else {
        let prev = lines_of(s.drop_last());
        if s.last() == '\n' {
            prev.push(Seq::empty())
        } else {
            prev.update(prev.len() - 1, prev.last().push(s.last()))
        }
    }
}

proof fn lemma_lines_not_empty(s: Seq<char>)
    ensures
        lines_of(s).len() >= 1,
    decreases s.len(),
{
    if s.len() > 0 {
        lemma_lines_not_empty(s.drop_last());
    }
}

/// The lines of `s`.
fn split_lines(s: &[char]) -> (r: Vec<Vec<char>>)
    ensures
        r.deep_view() == lines_of(s@),
{
    let mut lines: Vec<Vec<char>> = Vec::new();
    lines.push(Vec::new());
    let mut i: usize = 0;
    assert(lines.deep_view() =~~= lines_of(s@.take(0)));
    while i < s.len()
        invariant
            i <= s@.len(),
            lines.deep_view() == lines_of(s@.take(i as int)),
            lines@.len() >= 1,
        decreases s@.len() - i,
    {
        let ghost prev = lines.deep_view();
        let c = s[i];
        assert(s@.take(i + 1).drop_last() =~= s@.take(i as int));
        if c == '\n' {
            lines.push(Vec::new());
            assert(lines.deep_view() =~~= prev.push(Seq::empty()));
        } else {
            let last = lines.len() - 1;
            let mut line = lines[last].clone();
            line.push(c);
            lines.set(last, line);
            assert(lines.deep_view() =~~= prev.update(prev.len() - 1, prev.last().push(c)));
        }
        i += 1;
    }
    assert(s@.take(s@.len() as int) =~= s@);
    lines
}

/// The colored form of a mock error message: the text before the first `:` of its first line
/// in bold red, the rest of that line plain; and if the message has exactly three lines (an
/// expected and a received value), the second line in yellow and the third in blue. A message
/// whose first line has no `:` stays as it is, without color. `None` for an empty message.
pub open spec fn pretty_text(msg: Seq<char>) -> Option<Seq<char>> {
    let lines = lines_of(msg);
    let first = lines[0];
    if msg.len() == 0 {
        None
    } else {
        match first_occurrence(first, seq![':']) {
            None => Some(msg),
            Some(i) => Some(
                color_sequence(Paint::Red, true) + first.take(i) + reset_sequence() + first.skip(i)
                    + seq!['\n'] + if lines.len() == 3 {
                    color_sequence(Paint::Yellow, false) + lines[1] + seq!['\n'] + color_sequence(
                        Paint::Blue,
                        false,
                    ) + lines[2] + seq!['\n'] + reset_sequence()
                } else {
                    Seq::empty()
                },
            ),
        }
    }
}

/// Why coloring a message failed.
#[derive(Debug)]
pub enum PrettyError {
    /// Writing to the buffer failed.
    Write(std::io::Error),
    /// There is no message to color.
    Mock(MockError),
}

proof fn lemma_encode_concat(a: Seq<char>, b: Seq<char>)
    ensures
        encode_utf8(a + b) == encode_utf8(a) + encode_utf8(b),
    decreases a.len(),
{
    if a.len() > 0 {
        assert((a + b).drop_first() =~= a.drop_first() + b);
        lemma_encode_concat(a.drop_first(), b);
    }
}

/// Color a mock error message for a terminal (see `pretty_text`).
///
/// Error:
/// - The message is empty: `PrettyPrintFailed`.
/// - Writing to the buffer failed, which cannot happen with the buffer used here.
pub fn pretty_error(emsg: &str) -> (r: Result<String, PrettyError>)
    ensures
        pretty_text(emsg@) is None ==> r matches Err(PrettyError::Mock(MockError::PrettyPrintFailed)),
        r matches Ok(s) ==> pretty_text(emsg@) == Some(s@),
        emsg@.len() > 0 ==> (r matches Ok(s) && pretty_text(emsg@) == Some(s@)),
        emsg@.len() > 0 && first_occurrence(lines_of(emsg@)[0], seq![':']) is None ==> (r matches Ok(
            s,
        ) && s@ == emsg@),
{
    let chars = chars_of(emsg);
    if chars.len() == 0 {
        return Err(PrettyError::Mock(MockError::PrettyPrintFailed));
    }
    let lines = split_lines(&chars);
    proof {
        lemma_lines_not_empty(emsg@);
    }
    let mut buf = ansi_buffer();
    let first = &lines[0];
    assert(first@ == lines_of(emsg@)[0]);
    let colon: Vec<char> = vec![':'];
    assert(colon@ =~= seq![':']);
    assert(first@.subrange(0, first@.len() as int) =~= first@);
    let idx = match find_in(first, 0, first.len(), &colon) {
        Some(i) => i,
        None => {
            return Ok(emsg.to_owned());
        },
    };
    let ghost text = pretty_text(emsg@)->0;
    let head = string_of(&first.as_slice()[0..idx]);
    let tail = string_of(&first.as_slice()[idx..first.len()]);
    if let Err(e) = set_color(&mut buf, Paint::Red, true) {
        return Err(PrettyError::Write(e));
    }
    if let Err(e) = write_text(&mut buf, head.as_str()) {
        return Err(PrettyError::Write(e));
    }
    if let Err(e) = reset_color(&mut buf) {
        return Err(PrettyError::Write(e));
    }
    if let Err(e) = write_text(&mut buf, tail.as_str()) {
        return Err(PrettyError::Write(e));
    }
    if let Err(e) = write_text(&mut buf, "\n") {
        return Err(PrettyError::Write(e));
    }
    let ghost written = color_sequence(Paint::Red, true) + head@ + reset_sequence() + tail@ + seq![
        '\n',
    ];
    proof {
        reveal_strlit("\n");
        lemma_encode_concat(color_sequence(Paint::Red, true), head@);
        lemma_encode_concat(color_sequence(Paint::Red, true) + head@, reset_sequence());
        lemma_encode_concat(color_sequence(Paint::Red, true) + head@ + reset_sequence(), tail@);
        lemma_encode_concat(
            color_sequence(Paint::Red, true) + head@ + reset_sequence() + tail@,
            seq!['\n'],
        );
        assert(seq!['\n'] =~= "\n"@);
    }
    if lines.len() == 3 {
        let second = string_of(lines[1].as_slice());
        let third = string_of(lines[2].as_slice());
        if let Err(e) = set_color(&mut buf, Paint::Yellow, false) {
            return Err(PrettyError::Write(e));
        }
        if let Err(e) = write_text(&mut buf, second.as_str()) {
            return Err(PrettyError::Write(e));
        }
        if let Err(e) = write_text(&mut buf, "\n") {
            return Err(PrettyError::Write(e));
        }
        proof {
            reveal_strlit("\n");
        }
        if let Err(e) = set_color(&mut buf, Paint::Blue, false) {
            return Err(PrettyError::Write(e));
        }
        if let Err(e) = write_text(&mut buf, third.as_str()) {
            return Err(PrettyError::Write(e));
        }
        if let Err(e) = write_text(&mut buf, "\n") {
            return Err(PrettyError::Write(e));
        }
        if let Err(e) = reset_color(&mut buf) {
            return Err(PrettyError::Write(e));
        }
        proof {
            let w1 = written + color_sequence(Paint::Yellow, false);
            let w2 = w1 + second@;
            let w3 = w2 + seq!['\n'];
            let w4 = w3 + color_sequence(Paint::Blue, false);
            let w5 = w4 + third@;
            let w6 = w5 + seq!['\n'];
            let w7 = w6 + reset_sequence();
            lemma_encode_concat(written, color_sequence(Paint::Yellow, false));
            lemma_encode_concat(w1, second@);
            lemma_encode_concat(w2, seq!['\n']);
            lemma_encode_concat(w3, color_sequence(Paint::Blue, false));
            lemma_encode_concat(w4, third@);
            lemma_encode_concat(w5, seq!['\n']);
            lemma_encode_concat(w6, reset_sequence());
            assert(w7 =~= text);
        }
    }
    let bytes = buffer_slice(&buf);
    proof {
        vstd::utf8::encode_utf8_valid_utf8(text);
        vstd::utf8::encode_utf8_decode_utf8(text);
    }
    Ok(lossy_text(bytes))
}

} // verus!
