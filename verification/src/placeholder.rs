//! The placeholders `{}`, `{P}`, `{:B}` and `{P:B}` of a command string.
use vstd::prelude::*;

use crate::text::{chars_of, parse_usize, usize_text};

verus! {

/// Errors found when checking a command string.
#[derive(Debug, Clone, Copy, PartialEq, Eq, Structural)]
pub enum CommandParserError {
    /// For a placeholder that needs a delimited parser, a delimiter must be present between
    /// placeholders.
    DelimiterNotFound,
    /// One or more of the placeholders are invalid.
    InvalidPlaceholder,
    /// Mixed placeholders were found, which is invalid.
    MixedPlaceholder,
    /// No placeholder was found.
    NoPlaceholder,
    /// Positional arguments of placeholders are not unique.
    PositionNotUnique,
}

/// The kind of a placeholder.
#[derive(Debug, Clone, Copy, PartialEq, Eq, Structural)]
pub enum PlaceholderType {
    /// In order of appearance and not length defined placeholder `{}`.
    Unordered,
    /// Sorting defined, but not length defined placeholder `{P}`.
    Pos { pos: usize },
    /// Length defined, in order of appearance placeholder `{:B}`.
    CharLength { length: usize },
    /// Length defined and sorting defined placeholder `{P:B}`.
    CharLengthPos { pos: usize, length: usize },
}

/// The placeholder written as `s` between the braces, if `s` is a valid one: empty; a number;
/// `:` and a positive number; or a number, `:` and a positive number.
pub open spec fn placeholder_of(s: Seq<char>) -> Option<PlaceholderType> {
    if s.len() == 0 {
        Some(PlaceholderType::Unordered)
    } else if !s.contains(':') {
        match usize_text(s) {
            Some(pos) => Some(PlaceholderType::Pos { pos }),
            None => None,
        }
    } else {
        let i = choose|i: int| 0 <= i < s.len() && s[i] == ':' && !s.take(i).contains(':');
        let pos_str = s.take(i);
        let len_str = s.skip(i + 1);
        if len_str.contains(':') {
            None
        } else {
            match usize_text(len_str) {
                None => None,
                Some(length) => if length == 0 {
                    None
                } else if pos_str.len() == 0 {
                    Some(PlaceholderType::CharLength { length })
                } else {
                    match usize_text(pos_str) {
                        Some(pos) => Some(PlaceholderType::CharLengthPos { pos, length }),
                        None => None,
                    }
                },
            }
        }
    }
}

/// Whether two placeholders are of the same kind (position and length are ignored).
pub open spec fn same_kind(a: PlaceholderType, b: PlaceholderType) -> bool {
    match (a, b) {
        (PlaceholderType::Unordered, PlaceholderType::Unordered) => true,
        (PlaceholderType::Pos { .. }, PlaceholderType::Pos { .. }) => true,
        (PlaceholderType::CharLength { .. }, PlaceholderType::CharLength { .. }) => true,
        (PlaceholderType::CharLengthPos { .. }, PlaceholderType::CharLengthPos { .. }) => true,
        _ => false,
    }
}

/// Whether the placeholder carries a position.
pub open spec fn is_positional(p: PlaceholderType) -> bool {
    p is Pos || p is CharLengthPos
}

/// The position of a positional placeholder.
pub open spec fn position_of(p: PlaceholderType) -> usize {
    match p {
        PlaceholderType::Pos { pos } => pos,
        PlaceholderType::CharLengthPos { pos, .. } => pos,
        _ => 0,
    }
}

/// Parse the placeholder written as `s[lo..hi]`.
pub fn placeholder_from_chars(s: &[char], lo: usize, hi: usize) -> (r: Result<
    PlaceholderType,
    CommandParserError,
>)
    requires
        lo <= hi <= s.len(),
    ensures
        match placeholder_of(s@.subrange(lo as int, hi as int)) {
            Some(p) => r == Ok::<PlaceholderType, CommandParserError>(p),
            None => r == Err::<PlaceholderType, CommandParserError>(
                CommandParserError::InvalidPlaceholder,
            ),
        },
{
    let ghost t = s@.subrange(lo as int, hi as int);
    if lo == hi {
        return Ok(PlaceholderType::Unordered);
    }
    // find the first ':'
    let mut i: usize = lo;
    while i < hi && s[i] != ':'
        invariant
            lo <= i <= hi <= s.len(),
            forall|j: int| lo <= j < i ==> s@[j] != ':',
        decreases hi - i,
    {
        i += 1;
    }
    if i == hi {
        assert(!t.contains(':')) by {
            if t.contains(':') {
                let j = choose|j: int| 0 <= j < t.len() && t[j] == ':';
            }
        }
        return match parse_usize(s, lo, hi) {
            Some(pos) => Ok(PlaceholderType::Pos { pos }),
            None => Err(CommandParserError::InvalidPlaceholder),
        };
    }
    let ghost k = i - lo;
    assert(t.contains(':')) by {
        assert(t[k] == ':');
    }
    assert(0 <= k < t.len() && t[k] == ':' && !t.take(k).contains(':')) by {
        if t.take(k).contains(':') {
            let j = choose|j: int| 0 <= j < k && t.take(k)[j] == ':';
        }
    }
    let ghost c = choose|c: int| 0 <= c < t.len() && t[c] == ':' && !t.take(c).contains(':');
    assert(c == k) by {
        if c < k {
        } else if k < c {
            assert(t.take(c)[k] == ':');
        }
    }
    assert(t.take(k) =~= s@.subrange(lo as int, i as int));
    assert(t.skip(k + 1) =~= s@.subrange(i + 1, hi as int));
    // a second ':' makes the placeholder invalid
    let mut j: usize = i + 1;
    while j < hi && s[j] != ':'
        invariant
            i < j <= hi <= s.len(),
            forall|m: int| i < m < j ==> s@[m] != ':',
        decreases hi - j,
    {
        j += 1;
    }
    if j < hi {
        assert(s@.subrange(i + 1, hi as int)[j - i - 1] == ':');
        return Err(CommandParserError::InvalidPlaceholder);
    }
    let ghost rest = s@.subrange(i + 1, hi as int);
    assert(!rest.contains(':')) by {
        if rest.contains(':') {
            let m = choose|m: int| 0 <= m < rest.len() && #[trigger] rest[m] == ':';
        }
    }
    let length = match parse_usize(s, i + 1, hi) {
        Some(l) => l,
        None => {
            return Err(CommandParserError::InvalidPlaceholder);
        },
    };
    if length == 0 {
        return Err(CommandParserError::InvalidPlaceholder);
    }
    if i == lo {
        return Ok(PlaceholderType::CharLength { length });
    }
    match parse_usize(s, lo, i) {
        Some(pos) => Ok(PlaceholderType::CharLengthPos { pos, length }),
        None => Err(CommandParserError::InvalidPlaceholder),
    }
}

impl PlaceholderType {
    /// Parse the text between the braces of a placeholder.
    pub fn try_from(value: &str) -> (r: Result<PlaceholderType, CommandParserError>)
        ensures
            match placeholder_of(value@) {
                Some(p) => r == Ok::<PlaceholderType, CommandParserError>(p),
                None => r == Err::<PlaceholderType, CommandParserError>(
                    CommandParserError::InvalidPlaceholder,
                ),
            },
    {
        let chars = chars_of(value);
        assert(chars@.subrange(0, chars@.len() as int) =~= value@);
        placeholder_from_chars(&chars, 0, chars.len())
    }

    /// Whether this placeholder is of the same kind as `rhs`; position and length are ignored.
    pub fn is_same_type(&self, rhs: &PlaceholderType) -> (r: bool)
        ensures
            r == same_kind(*self, *rhs),
    {
        match self {
            PlaceholderType::Unordered => matches!(rhs, PlaceholderType::Unordered),
            PlaceholderType::Pos { .. } => matches!(rhs, PlaceholderType::Pos { .. }),
            PlaceholderType::CharLength { .. } => matches!(rhs, PlaceholderType::CharLength { .. }),
            PlaceholderType::CharLengthPos { .. } => matches!(
                rhs,
                PlaceholderType::CharLengthPos { .. }
            ),
        }
    }
}

/// Being of the same kind is an equivalence relation on placeholders.
pub proof fn same_kind_is_equivalence(a: PlaceholderType, b: PlaceholderType, c: PlaceholderType)
    ensures
        same_kind(a, a),
        same_kind(a, b) == same_kind(b, a),
        same_kind(a, b) && same_kind(b, c) ==> same_kind(a, c),
{
}

} // verus!
