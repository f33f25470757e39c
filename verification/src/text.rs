//! Text as sequences of characters: white space and trimming, searching, splitting, decimal
//! numbers, and the texts that `{}` and `{:?}` print for numbers and bytes.
use vstd::prelude::*;

use vstd::utf8::{decode_utf8, valid_utf8};

verus! {

broadcast use vstd::string::group_string_axioms;

pub assume_specification[ String::push ](s: &mut String, ch: char)
    ensures
        final(s)@ == old(s)@.push(ch),
;

/// The characters of `s`, in order.
pub fn chars_of(s: &str) -> (v: Vec<char>)
    ensures
        v@ == s@,
{
    let mut v: Vec<char> = Vec::new();
    for c in it: s.chars()
        invariant
            v@ == it.seq().take(it.index() as int),
            it.seq() == s@,
    {
        v.push(c);
    }
    v
}

/// Append the characters of `s` to `out`.
pub fn append_chars(out: &mut Vec<char>, s: &[char])
    ensures
        final(out)@ == old(out)@ + s@,
{
    let ghost start = out@;
    let mut j: usize = 0;
    while j < s.len()
        invariant
            j <= s@.len(),
            out@ == start + s@.take(j as int),
        decreases s@.len() - j,
    {
        out.push(s[j]);
        j += 1;
    }
}

/// A `String` holding the characters of `v`.
pub fn string_of(v: &[char]) -> (s: String)
    ensures
        s@ == v@,
{
    let mut s = String::new();
    let mut i: usize = 0;
    while i < v.len()
        invariant
            i <= v.len(),
            s@ == v@.take(i as int),
        decreases v.len() - i,
    {
        s.push(v[i]);
        i += 1;
    }
    s
}

/// Whether `c` has the Unicode `White_Space` property, which is what `char::is_whitespace`
/// tests and what `str::trim` removes.
pub open spec fn is_white_space(c: char) -> bool {
    ||| ('\u{9}' <= c && c <= '\u{d}')
    ||| c == ' '
    ||| c == '\u{85}'
    ||| c == '\u{a0}'
    ||| c == '\u{1680}'
    ||| ('\u{2000}' <= c && c <= '\u{200a}')
    ||| c == '\u{2028}'
    ||| c == '\u{2029}'
    ||| c == '\u{202f}'
    ||| c == '\u{205f}'
    ||| c == '\u{3000}'
}

pub fn white_space(c: char) -> (r: bool)
    ensures
        r == is_white_space(c),
{
    ('\u{9}' <= c && c <= '\u{d}') || c == ' ' || c == '\u{85}' || c == '\u{a0}' || c
        == '\u{1680}' || ('\u{2000}' <= c && c <= '\u{200a}') || c == '\u{2028}' || c
        == '\u{2029}' || c == '\u{202f}' || c == '\u{205f}' || c == '\u{3000}'
}

/// `s` without its leading white space.
pub open spec fn trim_start(s: Seq<char>) -> Seq<char>
    decreases s.len(),
{
    if s.len() > 0 && is_white_space(s[0]) {
        trim_start(s.drop_first())
    } else {
        s
    }
}

/// `s` without its trailing white space.
pub open spec fn trim_end(s: Seq<char>) -> Seq<char>
    decreases s.len(),
{
    if s.len() > 0 && is_white_space(s.last()) {
        trim_end(s.drop_last())
    } else {
        s
    }
}

/// `s` without leading and trailing white space (`str::trim`).
pub open spec fn trim(s: Seq<char>) -> Seq<char> {
    trim_end(trim_start(s))
}

proof fn lemma_trim_start_skip(s: Seq<char>, i: int)
    requires
        0 <= i <= s.len(),
        forall|j: int| 0 <= j < i ==> is_white_space(#[trigger] s[j]),
    ensures
        trim_start(s) == trim_start(s.skip(i)),
    decreases i,
{
    if i > 0 {
        lemma_trim_start_skip(s.drop_first(), i - 1);
        assert(s.drop_first().skip(i - 1) =~= s.skip(i));
    } else {
        assert(s.skip(0) =~= s);
    }
}

proof fn lemma_trim_end_take(s: Seq<char>, i: int)
    requires
        0 <= i <= s.len(),
        forall|j: int| i <= j < s.len() ==> is_white_space(#[trigger] s[j]),
    ensures
        trim_end(s) == trim_end(s.take(i)),
    decreases s.len() - i,
{
    if i < s.len() {
        lemma_trim_end_take(s.drop_last(), i);
        assert(s.drop_last().take(i) =~= s.take(i));
    } else {
        assert(s.take(i) =~= s);
    }
}

proof fn lemma_trim_start_len(s: Seq<char>)
    ensures
        trim_start(s).len() <= s.len(),
        s.len() > 0 && is_white_space(s[0]) ==> trim_start(s).len() < s.len(),
        s.len() > 0 && !is_white_space(s[0]) ==> trim_start(s) == s,
    decreases s.len(),
{
    if s.len() > 0 && is_white_space(s[0]) {
        lemma_trim_start_len(s.drop_first());
    }
}

proof fn lemma_trim_end_len(s: Seq<char>)
    ensures
        trim_end(s).len() <= s.len(),
        s.len() > 0 && is_white_space(s.last()) ==> trim_end(s).len() < s.len(),
        s.len() > 0 && !is_white_space(s.last()) ==> trim_end(s) == s,
    decreases s.len(),
{
    if s.len() > 0 && is_white_space(s.last()) {
        lemma_trim_end_len(s.drop_last());
    }
}

/// Text without white space at either end does not begin or end with white space.
pub proof fn lemma_trimmed_ends(t: Seq<char>)
    requires
        trim(t) == t,
        t.len() > 0,
    ensures
        !is_white_space(t[0]),
        !is_white_space(t.last()),
{
    lemma_trim_start_len(t);
    lemma_trim_end_len(trim_start(t));
    if !is_white_space(t[0]) {
        lemma_trim_end_len(t);
    }
}

/// White space after text that has none at either end is trimmed off.
pub proof fn lemma_trim_trailing_white_space(t: Seq<char>, ws: Seq<char>)
    requires
        trim(t) == t,
        forall|i: int| 0 <= i < ws.len() ==> is_white_space(#[trigger] ws[i]),
    ensures
        trim(t + ws) == t,
    decreases ws.len(),
{
    if t.len() == 0 {
        lemma_trim_start_skip(ws, ws.len() as int);
    } else {
        lemma_trimmed_ends(t);
        lemma_trim_start_len(t + ws);
        lemma_trim_end_take(t + ws, t.len() as int);
        lemma_trim_end_len(t);
    }
}

/// Leading white space of `s` goes first when white space `ws` is added at its end.
proof fn lemma_trim_start_append_white(s: Seq<char>, ws: Seq<char>)
    requires
        forall|i: int| 0 <= i < ws.len() ==> is_white_space(#[trigger] ws[i]),
    ensures
        trim_start(s + ws) == if trim_start(s).len() > 0 {
            trim_start(s) + ws
        } else {
            Seq::<char>::empty()
        },
    decreases s.len(),
{
    if s.len() == 0 {
        assert(s + ws =~= ws);
        lemma_trim_start_skip(ws, ws.len() as int);
        assert(ws.skip(ws.len() as int) =~= Seq::<char>::empty());
    } else if is_white_space(s[0]) {
        assert((s + ws).drop_first() =~= s.drop_first() + ws);
        lemma_trim_start_append_white(s.drop_first(), ws);
    } else {
    }
}

/// Trimming ignores white space added at either end: `trim(ws1 + s + ws2) == trim(s)`.
pub proof fn trim_ignores_added_white_space(ws1: Seq<char>, s: Seq<char>, ws2: Seq<char>)
    requires
        forall|i: int| 0 <= i < ws1.len() ==> is_white_space(#[trigger] ws1[i]),
        forall|i: int| 0 <= i < ws2.len() ==> is_white_space(#[trigger] ws2[i]),
    ensures
        trim(ws1 + s + ws2) == trim(s),
{
    let x = ws1 + s + ws2;
    assert forall|j: int| 0 <= j < ws1.len() implies is_white_space(#[trigger] x[j]) by {
        assert(x[j] == ws1[j]);
    }
    lemma_trim_start_skip(x, ws1.len() as int);
    assert(x.skip(ws1.len() as int) =~= s + ws2);
    lemma_trim_start_append_white(s, ws2);
    let t = trim_start(s);
    if t.len() > 0 {
        let u = t + ws2;
        assert forall|j: int| t.len() <= j < u.len() implies is_white_space(#[trigger] u[j]) by {
            assert(u[j] == ws2[j - t.len()]);
        }
        lemma_trim_end_take(u, t.len() as int);
        assert(u.take(t.len() as int) =~= t);
    } else {
        assert(t =~= Seq::<char>::empty());
    }
}

/// The bounds `(lo, hi)` of `trim(s)` inside `s`.
pub fn trim_bounds(s: &[char]) -> (r: (usize, usize))
    ensures
        r.0 <= r.1 <= s.len(),
        s@.subrange(r.0 as int, r.1 as int) == trim(s@),
{
    let mut lo: usize = 0;
    while lo < s.len() && white_space(s[lo])
        invariant
            lo <= s.len(),
            forall|j: int| 0 <= j < lo ==> is_white_space(#[trigger] s@[j]),
        decreases s.len() - lo,
    {
        lo += 1;
    }
    proof {
        lemma_trim_start_skip(s@, lo as int);
        let t = s@.skip(lo as int);
    }
    let mut hi: usize = s.len();
    while hi > lo && white_space(s[hi - 1])
        invariant
            lo <= hi <= s.len(),
            forall|j: int| hi <= j < s.len() ==> is_white_space(#[trigger] s@[j]),
        decreases hi,
    {
        hi -= 1;
    }
    proof {
        let t = s@.skip(lo as int);
        lemma_trim_end_take(t, hi - lo);
        let u = t.take(hi - lo);
    }
    (lo, hi)
}

/// Whether `pat` occurs in `s` at index `i`.
pub open spec fn occurs_at(s: Seq<char>, pat: Seq<char>, i: int) -> bool {
    0 <= i && i + pat.len() <= s.len() && s.subrange(i, i + pat.len()) == pat
}

/// Whether `i` is the index of the leftmost occurrence of `pat` in `s`.
pub open spec fn is_first_occurrence(s: Seq<char>, pat: Seq<char>, i: int) -> bool {
    occurs_at(s, pat, i) && forall|j: int| 0 <= j < i ==> !occurs_at(s, pat, j)
}

/// The index of the leftmost occurrence of `pat` in `s`, if any.
pub open spec fn first_occurrence(s: Seq<char>, pat: Seq<char>) -> Option<int> {
    if exists|i: int| is_first_occurrence(s, pat, i) {
        Some(choose|i: int| is_first_occurrence(s, pat, i))
    } else {
        None
    }
}

/// What `str::split_once` gives: the parts before and after the leftmost occurrence of `pat`.
pub open spec fn split_once(s: Seq<char>, pat: Seq<char>) -> Option<(Seq<char>, Seq<char>)> {
    match first_occurrence(s, pat) {
        Some(i) => Some((s.take(i), s.skip(i + pat.len()))),
        None => None,
    }
}

pub proof fn lemma_first_occurrence_unique(s: Seq<char>, pat: Seq<char>, i: int)
    requires
        is_first_occurrence(s, pat, i),
    ensures
        first_occurrence(s, pat) == Some(i),
{
    let k = choose|k: int| is_first_occurrence(s, pat, k);
}

pub proof fn lemma_no_occurrence(s: Seq<char>, pat: Seq<char>)
    requires
        forall|j: int| !occurs_at(s, pat, j),
    ensures
        first_occurrence(s, pat) == None::<int>,
{
}

/// Whether `pat` occurs in `s[lo..hi]` at relative index `i`.
fn occurs_at_exec(s: &[char], lo: usize, hi: usize, pat: &[char], i: usize) -> (r: bool)
    requires
        lo <= hi <= s.len(),
    ensures
        r == occurs_at(s@.subrange(lo as int, hi as int), pat@, i as int),
{
    let ghost t = s@.subrange(lo as int, hi as int);
    if i > hi - lo || pat.len() > hi - lo - i {
        return false;
    }
    let mut k: usize = 0;
    while k < pat.len()
        invariant
            lo <= hi <= s.len(),
            t == s@.subrange(lo as int, hi as int),
            i + pat.len() <= hi - lo,
            k <= pat.len(),
            forall|j: int| 0 <= j < k ==> t[i + j] == pat@[j],
        decreases pat.len() - k,
    {
        if s[lo + i + k] != pat[k] {
            return false;
        }
        k += 1;
    }
    assert(t.subrange(i as int, i + pat.len()) =~= pat@);
    true
}

/// The leftmost occurrence of `pat` in `s[lo..hi]`, relative to `lo`.
pub fn find_in(s: &[char], lo: usize, hi: usize, pat: &[char]) -> (r: Option<usize>)
    requires
        lo <= hi <= s.len(),
    ensures
        r matches Some(i) ==> first_occurrence(s@.subrange(lo as int, hi as int), pat@) == Some(
            i as int,
        ) && i + pat.len() <= hi - lo,
        r is None ==> first_occurrence(s@.subrange(lo as int, hi as int), pat@) == None::<int>,
{
    let ghost t = s@.subrange(lo as int, hi as int);
    if pat.len() > hi - lo {
        return None;
    }
    let last = hi - lo - pat.len();
    let mut i: usize = 0;
    loop
        invariant
            lo <= hi <= s.len(),
            t == s@.subrange(lo as int, hi as int),
            last + pat.len() == hi - lo,
            i <= last,
            forall|j: int| 0 <= j < i ==> !occurs_at(t, pat@, j),
        ensures
            forall|j: int| 0 <= j <= last ==> !occurs_at(t, pat@, j),
        decreases last - i,
    {
        if occurs_at_exec(s, lo, hi, pat, i) {
            proof {
                lemma_first_occurrence_unique(t, pat@, i as int);
            }
            return Some(i);
        }
        if i == last {
            break;
        }
        i += 1;
    }
    proof {
        assert forall|j: int| !occurs_at(t, pat@, j) by {
        }
        lemma_no_occurrence(t, pat@);
    }
    None
}

/// Whether `c` is an ASCII decimal digit.
pub open spec fn is_digit(c: char) -> bool {
    '0' <= c && c <= '9'
}

/// The number written by the decimal digits `s`.
pub open spec fn digits_value(s: Seq<char>) -> nat
    decreases s.len(),
{
    if s.len() == 0 {
        0
    } else {
        digits_value(s.drop_last()) * 10 + ((s.last() as nat) - ('0' as nat)) as nat
    }
}

/// Whether every character of `s` is a decimal digit.
pub open spec fn all_digits(s: Seq<char>) -> bool {
    forall|i: int| 0 <= i < s.len() ==> is_digit(#[trigger] s[i])
}

/// `s` without a leading `+`.
pub open spec fn without_plus(s: Seq<char>) -> Seq<char> {
    if s.len() > 0 && s[0] == '+' {
        s.drop_first()
    } else {
        s
    }
}

/// What `str::parse::<usize>` gives: an optional `+` followed by at least one decimal digit, the
/// number fitting in `usize`.
pub open spec fn usize_text(s: Seq<char>) -> Option<usize> {
    let digits = without_plus(s);
    if digits.len() > 0 && all_digits(digits) && digits_value(digits) <= usize::MAX {
        Some(digits_value(digits) as usize)
    } else {
        None
    }
}

proof fn lemma_digits_value_grows(s: Seq<char>, k: int)
    requires
        0 <= k <= s.len(),
        forall|i: int| 0 <= i < s.len() ==> is_digit(#[trigger] s[i]),
    ensures
        digits_value(s.take(k)) <= digits_value(s),
    decreases s.len() - k,
{
    if k < s.len() {
        lemma_digits_value_grows(s.drop_last(), k);
        assert(s.drop_last().take(k) =~= s.take(k));
    } else {
        assert(s.take(k) =~= s);
    }
}

/// `str::parse::<usize>` on `s[lo..hi]`.
pub fn parse_usize(s: &[char], lo: usize, hi: usize) -> (r: Option<usize>)
    requires
        lo <= hi <= s.len(),
    ensures
        r == usize_text(s@.subrange(lo as int, hi as int)),
{
    let ghost t = s@.subrange(lo as int, hi as int);
    let start = if lo < hi && s[lo] == '+' {
        lo + 1
    } else {
        lo
    };
    let ghost digits = s@.subrange(start as int, hi as int);
    if start == hi {
        return None;
    }
    let mut v: usize = 0;
    let mut i: usize = start;
    while i < hi
        invariant
            lo <= start <= i <= hi <= s.len(),
            start < hi,
            digits == s@.subrange(start as int, hi as int),
            t == s@.subrange(lo as int, hi as int),
            digits == without_plus(t),
            forall|j: int| 0 <= j < i - start ==> is_digit(#[trigger] digits[j]),
            v == digits_value(digits.take(i - start)),
        decreases hi - i,
    {
        let c = s[i];
        if !('0' <= c && c <= '9') {
            assert(!is_digit(digits[i - start]));
            return None;
        }
        let d = (c as u32 - '0' as u32) as usize;
        proof {
            assert(digits.take(i + 1 - start).drop_last() =~= digits.take(i - start));
        }
        if v > (usize::MAX - d) / 10 {
            proof {
                assert(v * 10 + d > usize::MAX) by (nonlinear_arith)
                    requires
                        v > (usize::MAX - d) / 10,
                        d <= 9,
                ;
                let rest_digit = exists|j: int| i - start < j < digits.len() && !is_digit(digits[j]);
                if !rest_digit {
                    assert forall|j: int| 0 <= j < digits.len() implies is_digit(
                        #[trigger] digits[j],
                    ) by {
                    }
                    lemma_digits_value_grows(digits, i + 1 - start);
                } else {
                    let j = choose|j: int| i - start < j < digits.len() && !is_digit(digits[j]);
                }
            }
            return None;
        }
        v = v * 10 + d;
        i += 1;
    }
    assert(digits.take(hi - start) =~= digits);
    Some(v)
}

pub proof fn lemma_first_occurrence_bounds(s: Seq<char>, pat: Seq<char>)
    ensures
        first_occurrence(s, pat) matches Some(i) ==> is_first_occurrence(s, pat, i) && 0 <= i && i
            + pat.len() <= s.len(),
{
}

/// `s` with every occurrence of the non-empty `pat`, from left to right and not overlapping,
/// replaced by `rep` (what `str::replace` gives).
pub open spec fn replace_all(s: Seq<char>, pat: Seq<char>, rep: Seq<char>) -> Seq<char>
    decreases s.len(),
{
    if pat.len() == 0 {
        s
    } else {
        match first_occurrence(s, pat) {
            None => s,
            Some(i) => if 0 <= i && i + pat.len() <= s.len() {
                s.take(i) + rep + replace_all(s.skip(i + pat.len()), pat, rep)
            } else {
                s
            },
        }
    }
}

/// `str::replace` on character sequences, for a non-empty pattern.
pub fn replace(s: &[char], pat: &[char], rep: &[char]) -> (r: Vec<char>)
    requires
        pat.len() > 0,
    ensures
        r@ == replace_all(s@, pat@, rep@),
{
    let mut out: Vec<char> = Vec::new();
    let mut cur: usize = 0;
    let n = s.len();
    assert(s@.subrange(0, n as int) =~= s@);
    loop
        invariant
            n == s.len(),
            cur <= n,
            pat.len() > 0,
            replace_all(s@, pat@, rep@) == out@ + replace_all(
                s@.subrange(cur as int, n as int),
                pat@,
                rep@,
            ),
        decreases n - cur,
    {
        let ghost t = s@.subrange(cur as int, n as int);
        match find_in(s, cur, n, pat) {
            None => {
                let ghost start_out = out@;
                let mut k = cur;
                while k < n
                    invariant
                        cur <= k <= n,
                        n == s.len(),
                        out@ == start_out + s@.subrange(cur as int, k as int),
                    decreases n - k,
                {
                    out.push(s[k]);
                    k += 1;
                }
                return out;
            },
            Some(i) => {
                proof {
                    lemma_first_occurrence_bounds(t, pat@);
                }
                let ghost before_out = out@;
                let mut k = cur;
                while k < cur + i
                    invariant
                        cur <= k <= cur + i,
                        cur + i + pat.len() <= n,
                        n == s.len(),
                        out@ == before_out + s@.subrange(cur as int, k as int),
                    decreases cur + i - k,
                {
                    out.push(s[k]);
                    k += 1;
                }
                let ghost mid_out = out@;
                let mut m: usize = 0;
                while m < rep.len()
                    invariant
                        m <= rep.len(),
                        out@ == mid_out + rep@.take(m as int),
                    decreases rep.len() - m,
                {
                    out.push(rep[m]);
                    m += 1;
                }
                assert(s@.subrange(cur + i + pat.len(), n as int) =~= t.skip(i + pat@.len()));
                assert(out@ + replace_all(t.skip(i + pat@.len()), pat@, rep@) =~= before_out
                    + replace_all(t, pat@, rep@));
                cur = cur + i + pat.len();
            },
        }
    }
}

/// The decimal digits of `n`, as `{}` and `{:?}` print it.
pub open spec fn decimal(n: nat) -> Seq<char>
    decreases n,
{
    if n < 10 {
        seq![digit_char(n)]
    } else {
        decimal(n / 10) + seq![digit_char(n % 10)]
    }
}

/// The digit character for `d < 10`.
pub open spec fn digit_char(d: nat) -> char {
    (('0' as nat) + d) as char
}

fn digit(d: u8) -> (c: char)
    requires
        d < 10,
    ensures
        c == digit_char(d as nat),
{
    if d == 0 { '0' } else if d == 1 { '1' } else if d == 2 { '2' } else if d == 3 { '3' } else if d
        == 4 { '4' } else if d == 5 { '5' } else if d == 6 { '6' } else if d == 7 { '7' } else if d
        == 8 { '8' } else { '9' }
}

/// Append the decimal digits of `b` to `out`.
pub fn push_decimal(out: &mut String, b: u8)
    ensures
        final(out)@ == old(out)@ + decimal(b as nat),
{
    reveal_with_fuel(decimal, 3);
    if b >= 100 {
        out.push(digit(b / 100));
        out.push(digit((b / 10) % 10));
        out.push(digit(b % 10));
    } else if b >= 10 {
        out.push(digit(b / 10));
        out.push(digit(b % 10));
    } else {
        out.push(digit(b));
    }
}

/// Append the decimal digits of `n` to `out`.
pub fn push_usize(out: &mut String, n: usize)
    ensures
        final(out)@ == old(out)@ + decimal(n as nat),
    decreases n,
{
    if n >= 10 {
        push_usize(out, n / 10);
    }
    let d: u8 = (n % 10) as u8;
    out.push(digit(d));
}

/// The text that `{:?}` prints for a list of bytes, such as `[1, 20, 255]`.
pub open spec fn bytes_debug(bytes: Seq<u8>) -> Seq<char> {
    seq!['['] + bytes_list(bytes) + seq![']']
}

/// The decimal numbers of `bytes`, separated by `, `.
pub open spec fn bytes_list(bytes: Seq<u8>) -> Seq<char>
    decreases bytes.len(),
{
    if bytes.len() == 0 {
        Seq::empty()
    } else if bytes.len() == 1 {
        decimal(bytes[0] as nat)
    } else {
        bytes_list(bytes.drop_last()) + seq![',', ' '] + decimal(bytes.last() as nat)
    }
}

/// Append the text that `{:?}` prints for `bytes` to `out`.
pub fn push_bytes_debug(out: &mut String, bytes: &[u8])
    ensures
        final(out)@ == old(out)@ + bytes_debug(bytes@),
{
    let ghost start = out@;
    out.push('[');
    let mut i: usize = 0;
    while i < bytes.len()
        invariant
            i <= bytes.len(),
            out@ == start + seq!['['] + bytes_list(bytes@.take(i as int)),
        decreases bytes.len() - i,
    {
        if i > 0 {
            out.push(',');
            out.push(' ');
        }
        push_decimal(out, bytes[i]);
        proof {
            let t = bytes@.take(i + 1);
            assert(t.drop_last() =~= bytes@.take(i as int));
        }
        i += 1;
    }
    out.push(']');
    assert(bytes@.take(bytes.len() as int) =~= bytes@);
}

/// `String::from_utf8_lossy`, made an owned `String`: the text that valid UTF-8 bytes encode.
/// What it gives for invalid bytes (with replacement characters) is not stated.
#[verifier::external_body]
pub(crate) fn lossy_text(bytes: &[u8]) -> (r: String)
    ensures
        valid_utf8(bytes@) ==> r@ == decode_utf8(bytes@),
{
    String::from_utf8_lossy(bytes).into_owned()
}

} // verus!
