//! Parsing of instrument answers whose values are separated by delimiters.
use vstd::prelude::*;

use crate::errors::InstrumentError;
use crate::text::{
    chars_of, find_in, is_white_space, lemma_first_occurrence_unique, occurs_at, split_once,
    string_of, trim, trim_bounds, trim_ignores_added_white_space,
};

verus! {

/// The parts that surround the arguments in a command string.
#[derive(Debug, Default)]
pub struct Delimiter {
    /// Part that comes before the first argument.
    pub before: String,
    /// The parts that come after each argument.
    pub after: Vec<String>,
}

/// A parser for delimited instrument answers, with optional sort indexes.
pub struct DelimitedParser {
    delimiter: Delimiter,
    sort_index: Option<Vec<usize>>,
}

/// The fields of `rest`: each one ends where the next delimiter of `after` begins; an empty
/// delimiter takes the whole rest (and does not consume it).
pub open spec fn parse_fields(rest: Seq<char>, after: Seq<Seq<char>>) -> Option<Seq<Seq<char>>>
    decreases after.len(),
{
    if after.len() == 0 {
        Some(Seq::empty())
    } else if after[0].len() == 0 {
        match parse_fields(rest, after.drop_first()) {
            Some(t) => Some(seq![rest] + t),
            None => None,
        }
    } else {
        match split_once(rest, after[0]) {
            Some((p, r)) => match parse_fields(r, after.drop_first()) {
                Some(t) => Some(seq![p] + t),
                None => None,
            },
            None => None,
        }
    }
}

/// The values of a delimited answer: trim it, drop everything up to the first `before`, split the
/// rest by the `after` delimiters, and reorder by `sort_index` if there is one.
pub open spec fn delimited_values(
    value: Seq<char>,
    before: Seq<char>,
    after: Seq<Seq<char>>,
    sort_index: Option<Seq<usize>>,
) -> Option<Seq<Seq<char>>> {
    match split_once(trim(value), before) {
        None => None,
        Some((_, rest)) => match parse_fields(rest, after) {
            None => None,
            Some(params) => match sort_index {
                None => Some(params),
                Some(ind) => Some(ind.map_values(|i: usize| params[i as int])),
            },
        },
    }
}

/// Whether the first occurrence of `delim` in `text + delim + more` is the one right after
/// `text`, whatever `more` is.
pub open spec fn ends_cleanly(text: Seq<char>, delim: Seq<char>) -> bool {
    forall|j: int| 0 <= j < text.len() ==> !occurs_at(text + delim, delim, j)
}

/// The texts from the `k`-th on, each followed by its end.
pub open spec fn joined(args: Seq<Seq<char>>, ends: Seq<Seq<char>>, k: int) -> Seq<char>
    decreases args.len() - k,
{
    if k < 0 || k >= args.len() {
        Seq::empty()
    } else {
        args[k] + ends[k] + joined(args, ends, k + 1)
    }
}

/// Texts followed by their ends are cut apart again at the ends, when some text follows each
/// but the last and each end first occurs right after its text.
pub proof fn lemma_parse_joined(args: Seq<Seq<char>>, ends: Seq<Seq<char>>, k: int)
    requires
        args.len() == ends.len(),
        0 <= k <= args.len(),
        forall|j: int| k <= j < args.len() - 1 ==> (#[trigger] ends[j]).len() > 0,
        forall|j: int|
            k <= j < args.len() && (#[trigger] ends[j]).len() > 0 ==> ends_cleanly(args[j], ends[j]),
    ensures
        parse_fields(joined(args, ends, k), ends.skip(k)) == Some(args.skip(k)),
    decreases args.len() - k,
{
    let n = args.len() as int;
    let s = joined(args, ends, k);
    let tail = ends.skip(k);
    if k == n {
    } else {
        let a = args[k];
        let e = ends[k];
        assert(tail.drop_first() =~= ends.skip(k + 1));
        lemma_parse_joined(args, ends, k + 1);
        let rest = joined(args, ends, k + 1);
        if e.len() == 0 {
            assert(parse_fields(s, tail.drop_first()) == Some(Seq::<Seq<char>>::empty()));
        } else {
            let i = a.len() as int;
            assert(s.subrange(i, i + e.len()) =~= e);
            assert forall|j: int| 0 <= j < i implies !occurs_at(s, e, j) by {
                assert(!occurs_at(a + e, e, j));
                if occurs_at(s, e, j) {
                    assert(s.subrange(j, j + e.len()) =~= (a + e).subrange(j, j + e.len()));
                }
            }
            lemma_first_occurrence_unique(s, e, i);
            assert(split_once(s, e) == Some((a, rest)));
        }
    }
}

/// An answer in the form of its command gives back its values: parsing the text in front of the
/// first value followed by the values, each followed by its delimiter, gives the values
/// (reordered by the sort index, if there is one). Provided that some delimiter follows every
/// value but the last, each delimiter first occurs right after its value, and the answer has no
/// white space at either end.
pub proof fn delimited_round_trip(
    before: Seq<char>,
    after: Seq<Seq<char>>,
    vals: Seq<Seq<char>>,
    sort_index: Option<Seq<usize>>,
)
    requires
        vals.len() == after.len(),
        forall|k: int| 0 <= k < after.len() - 1 ==> (#[trigger] after[k]).len() > 0,
        forall|k: int|
            0 <= k < after.len() && (#[trigger] after[k]).len() > 0 ==> ends_cleanly(vals[k], after[k]),
        trim(before + joined(vals, after, 0)) == before + joined(vals, after, 0),
    ensures
        delimited_values(before + joined(vals, after, 0), before, after, sort_index) == match sort_index {
            None => Some(vals),
            Some(ind) => Some(ind.map_values(|i: usize| vals[i as int])),
        },
{
    let text = before + joined(vals, after, 0);
    let rest = joined(vals, after, 0);
    assert(split_once(text, before) == Some((text.take(0), rest))) by {
        assert(text.subrange(0, before.len() as int) =~= before);
        lemma_first_occurrence_unique(text, before, 0);
    }
    assert(parse_fields(rest, after) == Some(vals)) by {
        lemma_parse_joined(vals, after, 0);
        assert(after.skip(0) =~= after);
    }
}

/// White space around an answer does not change its values: the values of `ws1 + value + ws2`
/// are those of `value` for white space `ws1` and `ws2`, so leading white space never reaches the
/// first value, nor trailing white space the last.
pub proof fn delimited_values_ignore_surrounding_white_space(
    ws1: Seq<char>,
    value: Seq<char>,
    ws2: Seq<char>,
    before: Seq<char>,
    after: Seq<Seq<char>>,
    sort_index: Option<Seq<usize>>,
)
    requires
        forall|i: int| 0 <= i < ws1.len() ==> is_white_space(#[trigger] ws1[i]),
        forall|i: int| 0 <= i < ws2.len() ==> is_white_space(#[trigger] ws2[i]),
    ensures
        delimited_values(ws1 + value + ws2, before, after, sort_index) == delimited_values(
            value,
            before,
            after,
            sort_index,
        ),
{
    trim_ignores_added_white_space(ws1, value, ws2);
}

/// There is one field per delimiter.
pub proof fn lemma_parse_fields_len(rest: Seq<char>, after: Seq<Seq<char>>)
    ensures
        parse_fields(rest, after) matches Some(t) ==> t.len() == after.len(),
    decreases after.len(),
{
    if after.len() > 0 {
        lemma_parse_fields_len(rest, after.drop_first());
        match split_once(rest, after[0]) {
            Some((_, r)) => lemma_parse_fields_len(r, after.drop_first()),
            None => {},
        }
    }
}

/// Split `s[lo..hi]` into the fields that end at the delimiters `ends` (see `parse_fields`).
pub fn split_fields(s: &[char], lo: usize, hi: usize, ends: &Vec<String>) -> (r: Option<
    Vec<String>,
>)
    requires
        lo <= hi <= s.len(),
    ensures
        match parse_fields(s@.subrange(lo as int, hi as int), ends.deep_view()) {
            Some(t) => r matches Some(v) && v.deep_view() == t,
            None => r is None,
        },
{
    let ghost rest0 = s@.subrange(lo as int, hi as int);
    let ghost after = ends.deep_view();
    let mut params: Vec<String> = Vec::new();
    let mut cur = lo;
    let n = ends.len();
    let mut k: usize = 0;
    proof {
        assert(after.skip(0) =~= after);
    }
    while k < n
        invariant
            lo <= cur <= hi <= s.len(),
            n == after.len(),
            after == ends.deep_view(),
            rest0 == s@.subrange(lo as int, hi as int),
            k <= n,
            params@.len() == k,
            parse_fields(rest0, after) == match parse_fields(
                s@.subrange(cur as int, hi as int),
                after.skip(k as int),
            ) {
                Some(t) => Some(params.deep_view() + t),
                None => None::<Seq<Seq<char>>>,
            },
        decreases n - k,
    {
        let ghost rest = s@.subrange(cur as int, hi as int);
        let ghost tail = after.skip(k as int);
        assert(tail.drop_first() =~= after.skip(k + 1));
        let d = chars_of(ends[k].as_str());
        if d.len() == 0 {
            let p = string_of(&s[cur..hi]);
            let ghost prev = params.deep_view();
            params.push(p);
        } else {
            match find_in(s, cur, hi, &d) {
                Some(i) => {
                    let p = string_of(&s[cur..cur + i]);
                    proof {
                        assert(s@.subrange(cur as int, cur + i) =~= rest.take(i as int));
                        assert(s@.subrange(cur + i + d.len(), hi as int) =~= rest.skip(
                            i + d@.len(),
                        ));
                    }
                    params.push(p);
                    cur = cur + i + d.len();
                },
                None => {
                    return None;
                },
            }
        }
        k += 1;
    }
    proof {
        let e = after.skip(n as int);
        assert(parse_fields(s@.subrange(cur as int, hi as int), e) == Some(
            Seq::<Seq<char>>::empty(),
        ));
    }
    Some(params)
}

impl DelimitedParser {
    pub closed spec fn before(&self) -> Seq<char> {
        self.delimiter.before@
    }

    pub closed spec fn after(&self) -> Seq<Seq<char>> {
        self.delimiter.after.deep_view()
    }

    pub closed spec fn sort_index(&self) -> Option<Seq<usize>> {
        match self.sort_index {
            Some(v) => Some(v@),
            None => None,
        }
    }

    /// Whether every sort index points at one of the values.
    pub open spec fn sort_index_in_range(&self) -> bool {
        self.sort_index() matches Some(ind) ==> forall|k: int|
            0 <= k < ind.len() ==> ind[k] < self.after().len()
    }

    /// Create a new parser from its components.
    pub fn new(before: String, after: Vec<String>, sort_index: Option<Vec<usize>>) -> (r: Self)
        ensures
            r.before() == before@,
            r.after() == after.deep_view(),
            r.sort_index() == (match sort_index {
                Some(v) => Some(v@),
                None => None::<Seq<usize>>,
            }),
    {
        DelimitedParser { delimiter: Delimiter { before, after }, sort_index }
    }

    /// Parse an instrument answer into its values, ordered by the sort index if there is one.
    pub fn parse(&self, value: &str) -> (r: Result<Vec<String>, InstrumentError>)
        requires
            self.sort_index_in_range(),
        ensures
            match delimited_values(value@, self.before(), self.after(), self.sort_index()) {
                Some(vals) => r matches Ok(v) && v.deep_view() == vals,
                None => r matches Err(InstrumentError::BadInstrumentResponseString { msg })
                    && msg@ == value@,
            },
    {
        let chars = chars_of(value);
        let (lo, hi) = trim_bounds(&chars);
        let ghost trimmed = chars@.subrange(lo as int, hi as int);
        let before = chars_of(self.delimiter.before.as_str());
        let start = match find_in(&chars, lo, hi, &before) {
            Some(i) => lo + i + before.len(),
            None => {
                return Err(
                    InstrumentError::BadInstrumentResponseString { msg: string_of(&chars) },
                );
            },
        };
        let ghost rest0 = chars@.subrange(start as int, hi as int);
        assert(rest0 =~= trimmed.skip(start - lo));
        let params = match split_fields(&chars, start, hi, &self.delimiter.after) {
            Some(p) => p,
            None => {
                return Err(
                    InstrumentError::BadInstrumentResponseString { msg: string_of(&chars) },
                );
            },
        };
        let n = self.delimiter.after.len();
        assert(params@.len() == n) by {
            lemma_parse_fields_len(rest0, self.after());
        }
        match &self.sort_index {
            None => Ok(params),
            Some(ind) => {
                let ghost pv = params.deep_view();
                let mut sorted: Vec<String> = Vec::new();
                let mut j: usize = 0;
                while j < ind.len()
                    invariant
                        pv == params.deep_view(),
                        pv.len() == n,
                        self.sort_index == Some(*ind),
                        self.sort_index_in_range(),
                        n == self.after().len(),
                        j <= ind.len(),
                        sorted.deep_view() =~= ind@.take(j as int).map_values(
                            |i: usize| pv[i as int],
                        ),
                    decreases ind.len() - j,
                {
                    assert(self.sort_index() matches Some(si) && si[j as int] < n);
                    let ghost prev = sorted.deep_view();
                    let v = params[ind[j]].clone();
                    sorted.push(v);
                    j += 1;
                    assert(sorted.deep_view() =~= prev.push(pv[ind@[j - 1] as int]));
                    assert(sorted.deep_view() =~= ind@.take(j as int).map_values(
                        |i: usize| pv[i as int],
                    ));
                }
                Ok(sorted)
            },
        }
    }
}

} // verus!
