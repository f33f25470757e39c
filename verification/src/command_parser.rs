//! Checking of command strings: finds the placeholders and tells which kind of parser the
//! instrument answers need.
use vstd::prelude::*;

use crate::placeholder::{
    is_positional, placeholder_from_chars, placeholder_of, position_of, same_kind,
    CommandParserError, PlaceholderType,
};
use crate::sort::{is_stable_argsort, stable_argsort};
use crate::text::{chars_of, string_of};

verus! {

/// How the values of an instrument answer are separated.
#[derive(Debug, Clone, Copy, PartialEq, Eq, Structural)]
pub enum CommandSeparation {
    /// A delimiter separates the values: the answer is read with a delimited parser.
    Delimiter,
    /// Each value has a fixed number of characters: the answer is read with a character length
    /// parser.
    CharLength,
}

/// The state of the scan over a command string.
pub struct ScanState {
    /// Character positions of the opening brackets.
    pub left: Seq<usize>,
    /// Character positions of the closing brackets.
    pub right: Seq<usize>,
    /// The placeholders found so far.
    pub placeholders: Seq<PlaceholderType>,
    /// The text collected since the last opening bracket.
    pub between: Seq<char>,
    /// Whether the scan is inside a placeholder.
    pub inside: bool,
    /// The previous character (a space at the start).
    pub last: char,
    /// Whether an invalid placeholder was found.
    pub failed: bool,
}

pub open spec fn scan_start() -> ScanState {
    ScanState {
        left: Seq::empty(),
        right: Seq::empty(),
        placeholders: Seq::empty(),
        between: Seq::empty(),
        inside: false,
        last: ' ',
        failed: false,
    }
}

/// One step of the scan: the character `ch` at position `it`. A `{` that is not escaped by a
/// preceding `\` opens a placeholder (unless one is open already); a `}` that is not escaped
/// closes one, whose text must be a valid placeholder.
pub open spec fn scan_step(st: ScanState, it: usize, ch: char) -> ScanState {
    if st.failed {
        st
    } else if ch == '{' && st.last != '\\' && !st.inside {
        ScanState { left: st.left.push(it), inside: true, last: ch, ..st }
    } else if ch == '}' && st.last != '\\' {
        match placeholder_of(st.between) {
            Some(p) => ScanState {
                right: st.right.push(it),
                placeholders: st.placeholders.push(p),
                between: Seq::empty(),
                inside: false,
                last: ch,
                ..st
            },
            None => ScanState { failed: true, ..st },
        }
    } else if st.inside {
        ScanState { between: st.between.push(ch), last: ch, ..st }
    } else {
        ScanState { last: ch, ..st }
    }
}

/// The scan over the whole of `s`.
pub open spec fn scan(s: Seq<char>) -> ScanState
    decreases s.len(),
{
    if s.len() == 0 {
        scan_start()
    } else {
        scan_step(scan(s.drop_last()), (s.len() - 1) as usize, s.last())
    }
}

/// Whether all placeholders are of the kind of the first one.
pub open spec fn all_same_kind(ph: Seq<PlaceholderType>) -> bool {
    forall|i: int| 0 <= i < ph.len() ==> same_kind(#[trigger] ph[i], ph[0])
}

/// Whether the positions of the placeholders are all different.
pub open spec fn positions_unique(ph: Seq<PlaceholderType>) -> bool {
    forall|i: int, j: int|
        0 <= i < j < ph.len() ==> position_of(#[trigger] ph[i]) != position_of(#[trigger] ph[j])
}

/// The check of a list of placeholders: there must be one at least, all of one kind, and
/// positional placeholders must have unique positions.
pub open spec fn placeholders_check(ph: Seq<PlaceholderType>) -> Result<(), CommandParserError> {
    if ph.len() == 0 {
        Err(CommandParserError::NoPlaceholder)
    } else if !all_same_kind(ph) {
        Err(CommandParserError::MixedPlaceholder)
    } else if is_positional(ph[0]) && !positions_unique(ph) {
        Err(CommandParserError::PositionNotUnique)
    } else {
        Ok(())
    }
}

/// The separation that a kind of placeholder needs.
pub open spec fn separation_of(p: PlaceholderType) -> CommandSeparation {
    match p {
        PlaceholderType::Unordered | PlaceholderType::Pos { .. } => CommandSeparation::Delimiter,
        _ => CommandSeparation::CharLength,
    }
}

/// Whether some placeholder directly follows the previous one, with no delimiter in between.
pub open spec fn missing_delimiter(left: Seq<usize>, right: Seq<usize>) -> bool {
    exists|k: int| 0 <= k < right.len() && k + 1 < left.len() && #[trigger] left[k + 1] <= right[k] + 1
}

/// The parts of a valid command string.
pub struct CommandParts {
    pub left: Seq<usize>,
    pub right: Seq<usize>,
    pub placeholders: Seq<PlaceholderType>,
    pub separation: CommandSeparation,
}

/// The outcome of checking the command string `s`.
pub open spec fn check_command(s: Seq<char>) -> Result<CommandParts, CommandParserError> {
    let st = scan(s);
    if st.failed || st.left.len() != st.right.len() {
        Err(CommandParserError::InvalidPlaceholder)
    } else {
        match placeholders_check(st.placeholders) {
            Err(e) => Err(e),
            Ok(_) => {
                let sep = separation_of(st.placeholders[0]);
                if sep == CommandSeparation::Delimiter && missing_delimiter(st.left, st.right) {
                    Err(CommandParserError::DelimiterNotFound)
                } else {
                    Ok(
                        CommandParts {
                            left: st.left,
                            right: st.right,
                            placeholders: st.placeholders,
                            separation: sep,
                        },
                    )
                }
            },
        }
    }
}

proof fn lemma_scan_failed_stays(s: Seq<char>, j: int)
    requires
        0 <= j <= s.len(),
        scan(s.take(j)).failed,
    ensures
        scan(s).failed,
    decreases s.len() - j,
{
    if j < s.len() {
        assert(s.take(j + 1).drop_last() =~= s.take(j));
        lemma_scan_failed_stays(s, j + 1);
    } else {
        assert(s.take(j) =~= s);
    }
}

/// Facts about the scan: one placeholder per closing bracket, and every position is a position
/// of `s`.
pub proof fn lemma_scan_facts(s: Seq<char>)
    ensures
        scan(s).right.len() == scan(s).placeholders.len(),
        forall|k: int| 0 <= k < scan(s).left.len() ==> #[trigger] scan(s).left[k] < s.len(),
        forall|k: int| 0 <= k < scan(s).right.len() ==> #[trigger] scan(s).right[k] < s.len(),
    decreases s.len(),
{
    if s.len() > 0 {
        lemma_scan_facts(s.drop_last());
    }
}

/// Whether the character at `i` of `s` is not escaped by a `\\` in front of it.
pub open spec fn unescaped(s: Seq<char>, i: int) -> bool {
    i == 0 || s[i - 1] != '\\'
}

/// Whether the positions `pos` are strictly increasing.
pub open spec fn increasing(pos: Seq<usize>) -> bool {
    forall|i: int, j: int| 0 <= i < j < pos.len() ==> pos[i] < pos[j]
}

/// What the scan keeps while it has not failed: where its brackets are, and how opening and
/// closing brackets alternate.
proof fn lemma_scan_brackets(s: Seq<char>)
    requires
        s.len() <= usize::MAX,
    ensures
        !scan(s).failed ==> {
            let st = scan(s);
            &&& st.last == (if s.len() == 0 { ' ' } else { s.last() })
            &&& forall|k: int|
                0 <= k < st.left.len() ==> #[trigger] st.left[k] < s.len() && s[st.left[k] as int]
                    == '{' && unescaped(s, st.left[k] as int)
            &&& forall|k: int|
                0 <= k < st.right.len() ==> #[trigger] st.right[k] < s.len() && s[st.right[k] as int]
                    == '}' && unescaped(s, st.right[k] as int)
            &&& increasing(st.left)
            &&& increasing(st.right)
            &&& forall|k: int|
                0 <= k && k + 1 < st.left.len() ==> k < st.right.len() && st.right[k]
                    < #[trigger] st.left[k + 1]
            &&& st.inside ==> st.left.len() <= st.right.len() + 1
            &&& !st.inside ==> st.left.len() <= st.right.len()
        },
    decreases s.len(),
{
    if s.len() > 0 {
        let p = s.drop_last();
        lemma_scan_brackets(p);
        let st = scan(p);
        if !scan(s).failed {
            assert(!st.failed);
            let it = p.len();
            let ch = s.last();
            assert forall|j: int| 0 <= j < p.len() implies #[trigger] s[j] == p[j] by {}
            let ns = scan(s);
            assert(s[it as int] == ch);
            assert(st.last != '\\' ==> unescaped(s, it as int)) by {
                if it > 0 {
                    assert(s[it - 1] == p[it - 1]);
                }
            }
            assert(ns.left.len() == st.left.len() || (ns.left == st.left.push(it as usize) && ch
                == '{' && st.last != '\\'));
            assert(ns.right.len() == st.right.len() || (ns.right == st.right.push(it as usize) && ch
                == '}' && st.last != '\\'));
            assert(ns.left.len() == st.left.len() ==> ns.left == st.left);
            assert(ns.right.len() == st.right.len() ==> ns.right == st.right);
            assert forall|k: int| 0 <= k < ns.left.len() implies #[trigger] ns.left[k] < s.len()
                && s[ns.left[k] as int] == '{' && unescaped(s, ns.left[k] as int) by {
                if k < st.left.len() {
                    let x = st.left[k] as int;
                    assert(ns.left[k] == st.left[k]);
                    assert(s[x] == p[x]);
                    if x > 0 {
                        assert(s[x - 1] == p[x - 1]);
                    }
                } else {
                    assert(ns.left[k] == it as usize);
                }
            }
            assert forall|k: int| 0 <= k < ns.right.len() implies #[trigger] ns.right[k] < s.len()
                && s[ns.right[k] as int] == '}' && unescaped(s, ns.right[k] as int) by {
                if k < st.right.len() {
                    let x = st.right[k] as int;
                    assert(ns.right[k] == st.right[k]);
                    assert(s[x] == p[x]);
                    if x > 0 {
                        assert(s[x - 1] == p[x - 1]);
                    }
                } else {
                    assert(ns.right[k] == it as usize);
                }
            }
            assert forall|i: int, j: int| 0 <= i < j < ns.left.len() implies ns.left[i]
                < ns.left[j] by {
                if j < st.left.len() {
                } else {
                    assert(ns.left[i] == st.left[i]);
                }
            }
            assert forall|i: int, j: int| 0 <= i < j < ns.right.len() implies ns.right[i]
                < ns.right[j] by {
                if j < st.right.len() {
                    assert(ns.right[i] == st.right[i]);
                    assert(ns.right[j] == st.right[j]);
                } else {
                    assert(ns.right[i] == st.right[i]);
                    assert(ns.right[j] == it as usize);
                }
            }
            assert forall|k: int| 0 <= k && k + 1 < ns.left.len() implies k < ns.right.len()
                && ns.right[k] < #[trigger] ns.left[k + 1] by {
                if k + 1 < st.left.len() {
                    assert(ns.left[k + 1] == st.left[k + 1]);
                    if k < st.right.len() {
                        assert(ns.right[k] == st.right[k]);
                    }
                } else {
                    assert(ns.right[k] == st.right[k]);
                }
            }
        }
    }
}

/// What a checked command string is made of: one placeholder, of one kind, at each pair of
/// recorded brackets, and at least one of them. Each recorded bracket is an unescaped `{` or
/// `}` of the command; both lists of positions increase, and every closing bracket comes before
/// the next opening one. Positional placeholders have distinct positions; a command of unordered
/// or positional placeholders needs a delimiter, and has text between each placeholder and the
/// next.
pub proof fn checked_command_brackets(s: Seq<char>)
    requires
        s.len() <= usize::MAX,
        check_command(s) is Ok,
    ensures
        check_command(s) matches Ok(parts) && {
            let n = parts.left.len();
            &&& n >= 1
            &&& parts.right.len() == n
            &&& parts.placeholders.len() == n
            &&& forall|k: int|
                0 <= k < n ==> #[trigger] parts.left[k] < s.len() && s[parts.left[k] as int] == '{'
                    && unescaped(s, parts.left[k] as int)
            &&& forall|k: int|
                0 <= k < n ==> #[trigger] parts.right[k] < s.len() && s[parts.right[k] as int] == '}'
                    && unescaped(s, parts.right[k] as int)
            &&& increasing(parts.left)
            &&& increasing(parts.right)
            &&& forall|k: int| 0 <= k && k + 1 < n ==> parts.right[k] < #[trigger] parts.left[k + 1]
            &&& all_same_kind(parts.placeholders)
            &&& is_positional(parts.placeholders[0]) ==> positions_unique(parts.placeholders)
            &&& parts.separation == separation_of(parts.placeholders[0])
            &&& parts.separation == CommandSeparation::Delimiter ==> forall|k: int|
                0 <= k && k + 1 < n ==> parts.right[k] + 1 < #[trigger] parts.left[k + 1]
        },
{
    lemma_scan_brackets(s);
    lemma_scan_facts(s);
    let parts = check_command(s)->Ok_0;
    if parts.separation == CommandSeparation::Delimiter {
        assert forall|k: int| 0 <= k && k + 1 < parts.left.len() implies parts.right[k] + 1
            < #[trigger] parts.left[k + 1] by {
            if parts.left[k + 1] <= parts.right[k] + 1 {
                assert(missing_delimiter(parts.left, parts.right));
            }
        }
    }
}

/// Whether an unescaped `{` comes before `end` in `s` with no unescaped `}` after it and before
/// `end`.
pub open spec fn open_before(s: Seq<char>, end: int) -> bool {
    exists|j: int|
        0 <= j < end && s[j] == '{' && unescaped(s, j) && forall|m: int|
            j < m < end ==> !(#[trigger] s[m] == '}' && unescaped(s, m))
}

/// Whether every unescaped `}` of `s` closes a placeholder: an unescaped `{` comes before it,
/// with no other unescaped `}` in between.
pub open spec fn brackets_pair_up(s: Seq<char>) -> bool {
    forall|i: int| 0 <= i < s.len() && s[i] == '}' && unescaped(s, i) ==> #[trigger] open_before(s, i)
}

/// While the scan has not failed, it is inside a placeholder after an unescaped `{` that no
/// unescaped `}` followed; if every closing bracket so far closed a placeholder, the brackets
/// alternate, each placeholder opening before it closes.
proof fn lemma_scan_pairing(s: Seq<char>)
    requires
        s.len() <= usize::MAX,
    ensures
        !scan(s).failed ==> (open_before(s, s.len() as int) ==> scan(s).inside),
        !scan(s).failed && brackets_pair_up(s) ==> {
            let st = scan(s);
            &&& st.inside ==> st.left.len() == st.right.len() + 1
            &&& !st.inside ==> st.left.len() == st.right.len()
            &&& forall|k: int| 0 <= k < st.right.len() ==> st.left[k] < #[trigger] st.right[k]
        },
    decreases s.len(),
{
    if s.len() > 0 {
        let p = s.drop_last();
        lemma_scan_pairing(p);
        lemma_scan_brackets(p);
        let st = scan(p);
        let ns = scan(s);
        let it = p.len() as int;
        let ch = s.last();
        if !ns.failed {
            assert(!st.failed);
            assert forall|j: int| 0 <= j < p.len() implies #[trigger] s[j] == p[j] by {}
            assert(s[it] == ch);
            assert(unescaped(s, it) == (st.last != '\\')) by {
                if it > 0 {
                    assert(s[it - 1] == p[it - 1]);
                }
            }
            assert forall|j: int| 0 <= j < it implies #[trigger] unescaped(s, j) == unescaped(p, j) by {
                if j > 0 {
                    assert(s[j - 1] == p[j - 1]);
                }
            }
            let closing = ch == '}' && unescaped(s, it);
            let opening = ch == '{' && unescaped(s, it);
            if open_before(s, it + 1) && !closing {
                let j = choose|j: int|
                    0 <= j < it + 1 && s[j] == '{' && unescaped(s, j) && forall|m: int|
                        j < m < it + 1 ==> !(#[trigger] s[m] == '}' && unescaped(s, m));
                if j < it {
                    assert forall|m: int| j < m < it implies !(#[trigger] p[m] == '}' && unescaped(
                        p,
                        m,
                    )) by {
                        assert(s[m] == p[m]);
                    }
                    assert(open_before(p, it));
                }
            }
            if closing {
                assert(!open_before(s, it + 1)) by {
                    if open_before(s, it + 1) {
                        let j = choose|j: int|
                            0 <= j < it + 1 && s[j] == '{' && unescaped(s, j) && forall|m: int|
                                j < m < it + 1 ==> !(#[trigger] s[m] == '}' && unescaped(s, m));
                        assert(j < it);
                        assert(!(s[it] == '}' && unescaped(s, it)));
                    }
                }
            }
            if brackets_pair_up(s) {
                assert(brackets_pair_up(p)) by {
                    assert forall|i: int|
                        0 <= i < p.len() && p[i] == '}' && unescaped(p, i) implies #[trigger] open_before(
                        p,
                        i,
                    ) by {
                        assert(s[i] == p[i]);
                        assert(open_before(s, i));
                        let j = choose|j: int|
                            0 <= j < i && s[j] == '{' && unescaped(s, j) && forall|m: int|
                                j < m < i ==> !(#[trigger] s[m] == '}' && unescaped(s, m));
                        assert(s[j] == p[j]);
                        assert forall|m: int| j < m < i implies !(#[trigger] p[m] == '}' && unescaped(
                            p,
                            m,
                        )) by {
                            assert(s[m] == p[m]);
                        }
                    }
                }
                if closing {
                    assert(open_before(s, it));
                    let j = choose|j: int|
                        0 <= j < it && s[j] == '{' && unescaped(s, j) && forall|m: int|
                            j < m < it ==> !(#[trigger] s[m] == '}' && unescaped(s, m));
                    assert forall|m: int| j < m < it implies !(#[trigger] p[m] == '}' && unescaped(
                        p,
                        m,
                    )) by {
                        assert(s[m] == p[m]);
                    }
                    assert(s[j] == p[j]);
                    assert(open_before(p, it));
                    assert(st.inside);
                    assert(ns.right == st.right.push(it as usize));
                    assert(ns.left == st.left);
                    assert forall|k: int| 0 <= k < ns.right.len() implies ns.left[k]
                        < #[trigger] ns.right[k] by {
                        if k < st.right.len() {
                            assert(ns.right[k] == st.right[k]);
                        } else {
                            assert(ns.left[k] == st.left[k]);
                        }
                    }
                } else if opening && !st.inside {
                    assert(ns.left == st.left.push(it as usize));
                    assert(ns.right == st.right);
                    assert forall|k: int| 0 <= k < ns.right.len() implies ns.left[k]
                        < #[trigger] ns.right[k] by {
                        assert(ns.left[k] == st.left[k]);
                    }
                } else {
                    assert(ns.left == st.left);
                    assert(ns.right == st.right);
                }
            }
        }
    }
}

/// In a checked command whose every unescaped `}` closes a placeholder (an unescaped `{` comes
/// before it, with no other unescaped `}` in between), each placeholder opens before it closes
/// and closes before the next one opens.
///
/// A checked command need not be so: `}{` and `{}}{` are accepted, with a closing bracket before
/// its opening one.
pub proof fn paired_brackets_in_order(s: Seq<char>)
    requires
        s.len() <= usize::MAX,
        check_command(s) is Ok,
        brackets_pair_up(s),
    ensures
        check_command(s) matches Ok(parts) && forall|k: int|
            0 <= k < parts.left.len() ==> #[trigger] parts.left[k] < parts.right[k] && (k + 1
                < parts.left.len() ==> parts.right[k] < parts.left[k + 1]),
{
    checked_command_brackets(s);
    lemma_scan_pairing(s);
    let parts = check_command(s)->Ok_0;
    assert forall|k: int| 0 <= k < parts.left.len() implies #[trigger] parts.left[k]
        < parts.right[k] && (k + 1 < parts.left.len() ==> parts.right[k] < parts.left[k + 1]) by {
        assert(parts.left[k] < parts.right[k]);
        if k + 1 < parts.left.len() {
            assert(parts.right[k] < parts.left[k + 1]);
        }
    }
}

/// The text of `cmd` before its first placeholder, each placeholder with the text between its
/// brackets, and the text after each placeholder, one after the other, from the `k`-th
/// placeholder on.
pub open spec fn rebuilt_from(
    cmd: Seq<char>,
    left: Seq<usize>,
    right: Seq<usize>,
    after: Seq<Seq<char>>,
    k: int,
) -> Seq<char>
    decreases left.len() - k,
{
    if k < 0 || k >= left.len() {
        Seq::empty()
    } else {
        seq!['{'] + cmd.subrange(left[k] + 1, right[k] as int) + seq!['}'] + after[k]
            + rebuilt_from(cmd, left, right, after, k + 1)
    }
}

proof fn lemma_rebuilt_from(cmd: Seq<char>, left: Seq<usize>, right: Seq<usize>, k: int)
    requires
        0 <= k <= left.len(),
        left.len() == right.len(),
        left.len() >= 1,
        forall|m: int| 0 <= m < left.len() ==> #[trigger] left[m] < right[m] < cmd.len(),
        forall|m: int| 0 <= m < left.len() ==> cmd[#[trigger] left[m] as int] == '{' && cmd[right[m] as int]
            == '}',
        forall|m: int| 0 <= m && m + 1 < left.len() ==> right[m] < #[trigger] left[m + 1],
    ensures
        k < left.len() ==> rebuilt_from(cmd, left, right, delimiter_parts(cmd, left, right).1, k)
            == cmd.skip(left[k] as int),
    decreases left.len() - k,
{
    if k < left.len() {
        let after = delimiter_parts(cmd, left, right).1;
        lemma_rebuilt_from(cmd, left, right, k + 1);
        let l = left[k] as int;
        let r = right[k] as int;
        if k + 1 < left.len() {
            let l2 = left[k + 1] as int;
            assert(after[k] == cmd.subrange(r + 1, l2));
            assert(cmd.skip(l) =~= seq!['{'] + cmd.subrange(l + 1, r) + seq!['}'] + cmd.subrange(
                r + 1,
                l2,
            ) + cmd.skip(l2));
        } else {
            assert(after[k] == cmd.skip(r + 1));
            assert(rebuilt_from(cmd, left, right, after, k + 1) =~= Seq::empty());
            assert(cmd.skip(l) =~= seq!['{'] + cmd.subrange(l + 1, r) + seq!['}'] + cmd.skip(
                r + 1,
            ));
        }
    }
}

/// A checked command whose every unescaped `}` closes a placeholder is the text that
/// `get_delimiter` gives before the first placeholder, then each placeholder (its brackets and
/// the text between them) followed by the delimiter that `get_delimiter` gives after it; every
/// delimiter but the last is not empty.
///
/// The brackets of a checked command need not pair up that way: `}{` and `{}}{` are accepted,
/// with a closing bracket in front of its opening one.
pub proof fn delimiters_rebuild_command(s: Seq<char>)
    requires
        s.len() <= usize::MAX,
        check_command(s) matches Ok(parts) && parts.separation == CommandSeparation::Delimiter,
        brackets_pair_up(s),
    ensures
        check_command(s) matches Ok(parts) && {
            let (before, after) = delimiter_parts(s, parts.left, parts.right);
            &&& after.len() == parts.left.len()
            &&& forall|k: int| 0 <= k && k + 1 < after.len() ==> (#[trigger] after[k]).len() > 0
            &&& s == before + rebuilt_from(s, parts.left, parts.right, after, 0)
        },
{
    checked_command_brackets(s);
    paired_brackets_in_order(s);
    let parts = check_command(s)->Ok_0;
    let (before, after) = delimiter_parts(s, parts.left, parts.right);
    lemma_rebuilt_from(s, parts.left, parts.right, 0);
    assert(s =~= s.take(parts.left[0] as int) + s.skip(parts.left[0] as int));
    assert forall|k: int| 0 <= k && k + 1 < after.len() implies (#[trigger] after[k]).len() > 0 by {
        assert(parts.right[k] + 1 < parts.left[k + 1]);
    }
}

/// Check the placeholders.
///
/// Error:
/// - No placeholders in the slice.
/// - Mixed placeholders were found.
/// - Positional placeholders (if present) are not unique.
pub fn verify_placeholders(ph: &[PlaceholderType]) -> (r: Result<(), CommandParserError>)
    ensures
        r == placeholders_check(ph@),
{
    if ph.len() == 0 {
        return Err(CommandParserError::NoPlaceholder);
    }
    let mut i: usize = 1;
    while i < ph.len()
        invariant
            1 <= i <= ph.len(),
            forall|k: int| 0 <= k < i ==> same_kind(#[trigger] ph@[k], ph@[0]),
        decreases ph.len() - i,
    {
        if !ph[i].is_same_type(&ph[0]) {
            return Err(CommandParserError::MixedPlaceholder);
        }
        i += 1;
    }
    let positional = match ph[0] {
        PlaceholderType::Pos { .. } | PlaceholderType::CharLengthPos { .. } => true,
        _ => false,
    };
    if !positional {
        return Ok(());
    }
    let mut j: usize = 1;
    while j < ph.len()
        invariant
            1 <= j <= ph.len(),
            is_positional(ph@[0]),
            all_same_kind(ph@),
            forall|a: int, b: int|
                0 <= a < b < j ==> position_of(#[trigger] ph@[a]) != position_of(#[trigger] ph@[b]),
        decreases ph.len() - j,
    {
        let pj = position(&ph[j]);
        let mut a: usize = 0;
        while a < j
            invariant
                1 <= j < ph.len(),
                a <= j,
                is_positional(ph@[0]),
                all_same_kind(ph@),
                pj == position_of(ph@[j as int]),
                forall|m: int| 0 <= m < a ==> position_of(#[trigger] ph@[m]) != pj,
            decreases j - a,
        {
            if position(&ph[a]) == pj {
                return Err(CommandParserError::PositionNotUnique);
            }
            a += 1;
        }
        j += 1;
    }
    Ok(())
}

fn has_missing_delimiter(left: &Vec<usize>, right: &Vec<usize>) -> (r: bool)
    requires
        left@.len() == right@.len(),
    ensures
        r == missing_delimiter(left@, right@),
{
    let mut k: usize = 1;
    while k < left.len()
        invariant
            left@.len() == right@.len(),
            1 <= k,
            k <= left@.len() || k == 1,
            forall|m: int| 0 <= m < k - 1 ==> !(#[trigger] left@[m + 1] <= right@[m] + 1),
        decreases left@.len() - k,
    {
        if left[k] <= right[k - 1] || left[k] - right[k - 1] == 1 {
            assert(left@[(k - 1) + 1] <= right@[k - 1] + 1);
            return true;
        }
        k += 1;
    }
    assert(!missing_delimiter(left@, right@)) by {
        if missing_delimiter(left@, right@) {
            let m = choose|m: int|
                0 <= m < right@.len() && m + 1 < left@.len() && #[trigger] left@[m + 1] <= right@[m]
                    + 1;
        }
    }
    false
}

fn position(p: &PlaceholderType) -> (r: usize)
    ensures
        r == position_of(*p),
{
    match p {
        PlaceholderType::Pos { pos } => *pos,
        PlaceholderType::CharLengthPos { pos, .. } => *pos,
        _ => 0,
    }
}

/// A checked command string, with the positions of its brackets and its placeholders.
///
/// A `{` or `}` preceded by `\` does not count as a bracket.
#[derive(Debug)]
pub struct CommandParser {
    /// The original command.
    cmd: String,
    /// Character positions of the left brackets.
    left_pos: Vec<usize>,
    /// Character positions of the right brackets.
    right_pos: Vec<usize>,
    /// The placeholders, in order.
    in_between: Vec<PlaceholderType>,
    /// The required parser type.
    parser_type: CommandSeparation,
}

impl CommandParser {
    #[verifier::type_invariant]
    spec fn well_formed(self) -> bool {
        &&& check_command(self.cmd@) == Ok::<CommandParts, CommandParserError>(self.parts())
        &&& self.left_pos@.len() == self.right_pos@.len()
        &&& self.right_pos@.len() == self.in_between@.len()
        &&& self.left_pos@.len() > 0
        &&& forall|k: int| 0 <= k < self.left_pos@.len() ==> #[trigger] self.left_pos@[k] < self.cmd@.len()
        &&& forall|k: int| 0 <= k < self.right_pos@.len() ==> #[trigger] self.right_pos@[k] < self.cmd@.len()
    }

    /// The command string.
    pub closed spec fn command(self) -> Seq<char> {
        self.cmd@
    }

    /// Brackets, placeholders and separation of the command.
    pub closed spec fn parts(self) -> CommandParts {
        CommandParts {
            left: self.left_pos@,
            right: self.right_pos@,
            placeholders: self.in_between@,
            separation: self.parser_type,
        }
    }

    /// Check the command string `s` and find its placeholders.
    ///
    /// Errors:
    /// - `InvalidPlaceholder`: a placeholder is not valid, or the brackets do not pair up.
    /// - `NoPlaceholder`, `MixedPlaceholder`, `PositionNotUnique`: see `verify_placeholders`.
    /// - `DelimiterNotFound`: for a delimited command, two placeholders with nothing between them.
    pub fn try_from(s: &str) -> (r: Result<CommandParser, CommandParserError>)
        ensures
            match check_command(s@) {
                Ok(parts) => r matches Ok(p) && p.command() == s@ && p.parts() == parts,
                Err(e) => r matches Err(f) && f == e,
            },
    {
        let chars = chars_of(s);
        let mut left_pos: Vec<usize> = Vec::new();
        let mut right_pos: Vec<usize> = Vec::new();
        let mut in_between: Vec<PlaceholderType> = Vec::new();
        let mut inside = false;
        let mut between: Vec<char> = Vec::new();
        let mut last = ' ';
        let mut it: usize = 0;
        while it < chars.len()
            invariant
                chars@ == s@,
                it <= chars.len(),
                scan(chars@.take(it as int)) == (ScanState {
                    left: left_pos@,
                    right: right_pos@,
                    placeholders: in_between@,
                    between: between@,
                    inside,
                    last,
                    failed: false,
                }),
            decreases chars.len() - it,
        {
            let ch = chars[it];
            proof {
                assert(chars@.take(it + 1).drop_last() =~= chars@.take(it as int));
            }
            if ch == '{' && last != '\\' && !inside {
                left_pos.push(it);
                inside = true;
            } else if ch == '}' && last != '\\' {
                assert(between@.subrange(0, between@.len() as int) =~= between@);
                match placeholder_from_chars(&between, 0, between.len()) {
                    Ok(p) => {
                        right_pos.push(it);
                        in_between.push(p);
                        between = Vec::new();
                        inside = false;
                    },
                    Err(_) => {
                        proof {
                            lemma_scan_failed_stays(chars@, it + 1);
                        }
                        return Err(CommandParserError::InvalidPlaceholder);
                    },
                }
            } else if inside {
                between.push(ch);
            }
            last = ch;
            it += 1;
        }
        assert(chars@.take(chars@.len() as int) =~= chars@);
        proof {
            lemma_scan_facts(chars@);
        }
        if left_pos.len() != right_pos.len() {
            return Err(CommandParserError::InvalidPlaceholder);
        }
        match verify_placeholders(&in_between) {
            Err(e) => {
                return Err(e);
            },
            Ok(_) => {},
        }
        let parser_type = match in_between[0] {
            PlaceholderType::Unordered | PlaceholderType::Pos { .. } => CommandSeparation::Delimiter,
            _ => CommandSeparation::CharLength,
        };
        if parser_type == CommandSeparation::Delimiter && has_missing_delimiter(
            &left_pos,
            &right_pos,
        ) {
            return Err(CommandParserError::DelimiterNotFound);
        }
        let cmd = string_of(&chars);
        Ok(CommandParser { cmd, left_pos, right_pos, in_between, parser_type })
    }

    /// The command string.
    pub fn cmd(&self) -> (r: &str)
        ensures
            r@ == self.command(),
    {
        self.cmd.as_str()
    }

    /// Character positions of the left brackets.
    pub fn left_pos(&self) -> (r: &Vec<usize>)
        ensures
            r@ == self.parts().left,
    {
        &self.left_pos
    }

    /// Character positions of the right brackets.
    pub fn right_pos(&self) -> (r: &Vec<usize>)
        ensures
            r@ == self.parts().right,
    {
        &self.right_pos
    }

    /// The placeholders, in order.
    pub fn in_between(&self) -> (r: &Vec<PlaceholderType>)
        ensures
            r@ == self.parts().placeholders,
    {
        &self.in_between
    }

    /// The kind of parser that instrument answers to this command need.
    pub fn parser_type(&self) -> (r: CommandSeparation)
        ensures
            r == self.parts().separation,
    {
        self.parser_type
    }

    /// Get the delimiters of a delimited command: the text before the first placeholder, and the
    /// text after each placeholder (up to the next one, or to the end).
    pub fn get_delimiter(&self) -> (r: (String, Vec<String>))
        requires
            self.parts().separation == CommandSeparation::Delimiter,
        ensures
            (r.0@, r.1.deep_view()) == delimiter_parts(
                self.command(),
                self.parts().left,
                self.parts().right,
            ),
    {
        proof {
            use_type_invariant(self);
        }
        let chars = chars_of(self.cmd.as_str());
        let ghost cmd = chars@;
        let ghost left = self.left_pos@;
        let ghost right = self.right_pos@;
        let n = self.left_pos.len();
        let before = string_of(&chars.as_slice()[0..self.left_pos[0]]);
        let mut after: Vec<String> = Vec::new();
        let mut k: usize = 0;
        while k < n
            invariant
                n == left.len(),
                n == right.len(),
                left == self.left_pos@,
                right == self.right_pos@,
                chars@ == cmd,
                cmd == self.command(),
                k <= n,
                forall|m: int| 0 <= m < n ==> #[trigger] left[m] < cmd.len(),
                forall|m: int| 0 <= m < n ==> #[trigger] right[m] < cmd.len(),
                !missing_delimiter(left, right),
                after.deep_view() =~= delimiter_parts(cmd, left, right).1.take(k as int),
            decreases n - k,
        {
            let ghost prev = after.deep_view();
            let rp = self.right_pos[k];
            let len = chars.len();
            if k + 1 < n {
                let lpn = self.left_pos[k + 1];
                after.push(string_of(&chars.as_slice()[rp + 1..lpn]));
                proof {
                    assert(chars@.subrange(rp + 1, lpn as int) =~= cmd.subrange(
                        rp + 1,
                        lpn as int,
                    ));
                }
            } else {
                after.push(string_of(&chars.as_slice()[rp + 1..len]));
            }
            k += 1;
            assert(after.deep_view() =~= prev.push(delimiter_parts(cmd, left, right).1[k - 1]));
        }
        (before, after)
    }

    /// The sort indexes of positional placeholders: the order of their positions, as indexes
    /// into the placeholders. `None` if the placeholders carry no position.
    pub fn get_sort_index_keys(&self) -> (r: Option<Vec<usize>>)
        ensures
            is_positional(self.parts().placeholders[0]) ==> (r matches Some(p) && is_stable_argsort(
                self.parts().placeholders.map_values(|p: PlaceholderType| position_of(p)),
                p@,
            )),
            !is_positional(self.parts().placeholders[0]) ==> r is None,
    {
        proof {
            use_type_invariant(self);
        }
        let ghost ph = self.in_between@;
        let mut keys: Vec<usize> = Vec::new();
        let mut k: usize = 0;
        while k < self.in_between.len()
            invariant
                ph == self.in_between@,
                ph.len() > 0,
                all_same_kind(ph),
                k <= ph.len(),
                keys@ =~= ph.take(k as int).map_values(|p: PlaceholderType| position_of(p)),
                k > 0 ==> is_positional(ph[0]),
            decreases ph.len() - k,
        {
            match self.in_between[k] {
                PlaceholderType::Pos { pos } => {
                    keys.push(pos);
                },
                PlaceholderType::CharLengthPos { pos, .. } => {
                    keys.push(pos);
                },
                _ => {
                    return None;
                },
            }
            k += 1;
        }
        Some(stable_argsort(&keys))
    }
}

/// The delimiters of a delimited command with brackets at `left` and `right`: the text before
/// the first placeholder, and for each placeholder the text up to the next one (or to the end).
pub open spec fn delimiter_parts(cmd: Seq<char>, left: Seq<usize>, right: Seq<usize>) -> (
    Seq<char>,
    Seq<Seq<char>>,
) {
    let n = left.len();
    (
        cmd.take(left[0] as int),
        Seq::new(
            n,
            |k: int|
                if k + 1 < n {
                    cmd.subrange(right[k] + 1, left[k + 1] as int)
                } else {
                    cmd.skip(right[k] + 1)
                },
        ),
    )
}

} // verus!
