//! What a derived instrument parameter does with its command string: how a struct's fields are
//! written into it and read back out of an answer, and how an enum's variant is found from its
//! text; with the checks made on a type when its parameter implementation is derived.
use vstd::prelude::*;

use crate::cmd::{mixed_order, sorting_of, CommandParseFormat};
use crate::delimited_parser::{
    ends_cleanly, joined, lemma_parse_fields_len, lemma_parse_joined, parse_fields, split_fields,
};
use crate::errors::InstrumentError;
use crate::sort::is_permutation;
use crate::text::{
    append_chars, chars_of, find_in, is_white_space, lemma_first_occurrence_unique,
    lemma_trim_trailing_white_space, replace_all, split_once, string_of, trim,
    trim_bounds,
};

verus! {

/// The text that a piece of a format string stands for: `{{` and `}}` each stand for one
/// bracket, and a single bracket makes the format string invalid (`None`).
pub open spec fn format_literal(s: Seq<char>) -> Option<Seq<char>>
    decreases s.len(),
{
    if s.len() == 0 {
        Some(Seq::empty())
    } else if s[0] == '{' || s[0] == '}' {
        if s.len() >= 2 && s[1] == s[0] {
            match format_literal(s.skip(2)) {
                Some(t) => Some(seq![s[0]] + t),
                None => None,
            }
        } else {
            None
        }
    } else {
        match format_literal(s.drop_first()) {
            Some(t) => Some(seq![s[0]] + t),
            None => None,
        }
    }
}

/// The text that the piece `s` of a format string stands for.
fn literal_text(s: &str) -> (r: Option<Vec<char>>)
    ensures
        match format_literal(s@) {
            Some(t) => r matches Some(v) && v@ == t,
            None => r is None,
        },
{
    let c = chars_of(s);
    let n = c.len();
    let mut out: Vec<char> = Vec::new();
    let mut i: usize = 0;
    proof {
        assert(c@.skip(0) =~= c@);
        match format_literal(c@) {
            Some(t) => assert(out@ + t =~= t),
            None => {},
        }
    }
    while i < n
        invariant
            n == c@.len(),
            c@ == s@,
            i <= n,
            format_literal(c@) == match format_literal(c@.skip(i as int)) {
                Some(t) => Some(out@ + t),
                None => None::<Seq<char>>,
            },
        decreases n - i,
    {
        let ghost rest = c@.skip(i as int);
        let ch = c[i];
        if ch == '{' || ch == '}' {
            if i + 1 < n && c[i + 1] == ch {
                proof {
                    assert(rest.skip(2) =~= c@.skip(i + 2));
                }
                out.push(ch);
                i += 2;
            } else {
                return None;
            }
        } else {
            proof {
                assert(rest.drop_first() =~= c@.skip(i + 1));
            }
            out.push(ch);
            i += 1;
        }
    }
    Some(out)
}

/// The first `k` pieces of text, each followed by its argument.
pub open spec fn interleave(pieces: Seq<Seq<char>>, args: Seq<Seq<char>>, k: nat) -> Seq<char>
    decreases k,
{
    if k == 0 {
        Seq::empty()
    } else {
        interleave(pieces, args, (k - 1) as nat) + pieces[k - 1] + args[k - 1]
    }
}

/// Whether every piece of text is a valid piece of a format string.
pub open spec fn pieces_valid(befores: Seq<Seq<char>>, after: Seq<char>) -> bool {
    &&& forall|k: int| 0 <= k < befores.len() ==> (#[trigger] format_literal(befores[k])) is Some
    &&& format_literal(after) is Some
}

/// What a struct's fields, given by their texts, are written as with the command whose
/// placeholders have the texts `befores` in front of them, the orders `orders`, and `after`
/// behind the last: the argument of each placeholder is the field that its sort key names.
///
/// `None` where the derived implementation is refused: the number of fields is not the number of
/// placeholders, the orders are mixed or do not name each field once, or a piece of text holds a
/// single bracket.
pub open spec fn fields_written(
    befores: Seq<Seq<char>>,
    orders: Seq<Option<usize>>,
    after: Seq<char>,
    fields: Seq<Seq<char>>,
) -> Option<Seq<char>> {
    let n = orders.len();
    let keys = sorting_of(orders);
    if befores.len() == n && fields.len() == n && !mixed_order(orders) && is_permutation(keys, n)
        && pieces_valid(befores, after) {
        Some(
            interleave(
                befores.map_values(|b: Seq<char>| format_literal(b)->0),
                Seq::new(n, |k: int| fields[keys[k] as int]),
                n,
            ) + format_literal(after)->0,
        )
    } else {
        None
    }
}

/// The texts of a struct's fields in the answer `val`, as the derived `try_from_writable` of a
/// struct cuts them out before it parses each field: the answer must contain the text in front
/// of the first placeholder (which is not taken off), the text of each placeholder ends where the
/// text behind it begins (an empty one ends nowhere: that placeholder takes the whole rest, and
/// leaves it), and each field takes the text of the placeholder that its sort key names.
///
/// `None` where the derived implementation panics, or is refused (see `fields_written`).
pub open spec fn fields_read(
    befores: Seq<Seq<char>>,
    orders: Seq<Option<usize>>,
    after: Seq<char>,
    val: Seq<char>,
) -> Option<Seq<Seq<char>>> {
    let n = orders.len();
    let keys = sorting_of(orders);
    if befores.len() == n && n > 0 && !mixed_order(orders) && is_permutation(keys, n)
        && pieces_valid(befores, after) {
        match split_once(val, befores[0]) {
            None => None,
            Some(_) => match parse_fields(val, befores.drop_first().push(after)) {
                None => None,
                Some(texts) => Some(Seq::new(n, |i: int| texts[keys[i] as int])),
            },
        }
    } else {
        None
    }
}

/// Whether `keys` lists each of `0..keys.len()` once.
fn is_permutation_of_indexes(keys: &[usize]) -> (r: bool)
    ensures
        r == is_permutation(keys@, keys@.len()),
{
    let n = keys.len();
    let mut i: usize = 0;
    while i < n
        invariant
            n == keys@.len(),
            i <= n,
            forall|k: int| 0 <= k < i ==> #[trigger] keys@[k] < n,
            forall|k: int, l: int| 0 <= k < l < i ==> keys@[k] != keys@[l],
        decreases n - i,
    {
        if keys[i] >= n {
            return false;
        }
        let mut j: usize = 0;
        while j < i
            invariant
                n == keys@.len(),
                j <= i < n,
                forall|k: int| 0 <= k < j ==> keys@[k] != keys@[i as int],
            decreases i - j,
        {
            if keys[j] == keys[i] {
                return false;
            }
            j += 1;
        }
        i += 1;
    }
    true
}

impl CommandParseFormat {
    /// Write a struct's fields, given by their texts, into the command: what the derived
    /// `to_writable` of a struct returns.
    ///
    /// `None` where the derived implementation is refused (see `fields_written`).
    pub fn write_fields(&self, fields: &[String]) -> (r: Option<String>)
        ensures
            match fields_written(self.befores(), self.orders(), self.after(), fields.deep_view()) {
                Some(t) => r matches Some(s) && s@ == t,
                None => r is None,
            },
    {
        let n = self.number_placeholders();
        let ghost befores = self.befores();
        let ghost orders = self.orders();
        let ghost after = self.after();
        let ghost fv = fields.deep_view();
        if fields.len() != n {
            return None;
        }
        let order = self.get_placeholder_order();
        if order.has_mixed_order() {
            return None;
        }
        let keys = order.get_sorting();
        if !is_permutation_of_indexes(keys.as_slice()) {
            return None;
        }
        let delim = self.get_cmd_delimiters();
        let ghost lits = befores.map_values(|b: Seq<char>| format_literal(b)->0);
        let ghost args = Seq::new(n as nat, |k: int| fv[keys@[k] as int]);
        let mut out: Vec<char> = Vec::new();
        let mut k: usize = 0;
        while k < n
            invariant
                befores == self.befores(),
                orders == self.orders(),
                after == self.after(),
                n == orders.len(),
                n == befores.len(),
                n == fv.len(),
                fv == fields.deep_view(),
                keys@ == sorting_of(orders),
                is_permutation(keys@, n as nat),
                befores == seq![delim.before@] + delim.between.deep_view(),
                delim.between.len() + 1 == n,
                delim.after@ == after,
                lits == befores.map_values(|b: Seq<char>| format_literal(b)->0),
                args == Seq::new(n as nat, |k: int| fv[keys@[k] as int]),
                k <= n,
                forall|j: int| 0 <= j < k ==> (#[trigger] format_literal(befores[j])) is Some,
                out@ == interleave(lits, args, k as nat),
            decreases n - k,
        {
            let piece: &str = if k == 0 {
                delim.before.as_str()
            } else {
                delim.between[k - 1].as_str()
            };
            let lit = match literal_text(piece) {
                Some(v) => v,
                None => {
                    return None;
                },
            };
            let key = keys[k];
            assert(key < n);
            let arg = chars_of(fields[key].as_str());
            append_chars(&mut out, lit.as_slice());
            append_chars(&mut out, arg.as_slice());
            proof {
                assert(out@ =~= interleave(lits, args, (k + 1) as nat));
            }
            k += 1;
        }
        let tail = match literal_text(delim.after.as_str()) {
            Some(v) => v,
            None => {
                return None;
            },
        };
        append_chars(&mut out, tail.as_slice());
        Some(string_of(&out))
    }

    /// Whether every piece of text of the command is a valid piece of a format string.
    fn pieces_are_valid(&self) -> (r: bool)
        ensures
            r == pieces_valid(self.befores(), self.after()),
    {
        let n = self.number_placeholders();
        let delim = self.get_cmd_delimiters();
        let ghost befores = self.befores();
        let mut k: usize = 0;
        while k < n
            invariant
                befores == self.befores(),
                n == befores.len(),
                befores == seq![delim.before@] + delim.between.deep_view(),
                delim.between.len() + 1 == n,
                k <= n,
                forall|j: int| 0 <= j < k ==> (#[trigger] format_literal(befores[j])) is Some,
            decreases n - k,
        {
            let piece: &str = if k == 0 {
                delim.before.as_str()
            } else {
                delim.between[k - 1].as_str()
            };
            assert(piece@ == befores[k as int]);
            if literal_text(piece).is_none() {
                return false;
            }
            k += 1;
        }
        literal_text(delim.after.as_str()).is_some()
    }

    /// Cut the texts of a struct's fields out of the answer `val`: what the derived
    /// `try_from_writable` of a struct parses each field from.
    ///
    /// `None` where the derived implementation panics or is refused (see `fields_read`).
    pub fn read_fields(&self, val: &str) -> (r: Option<Vec<String>>)
        ensures
            match fields_read(self.befores(), self.orders(), self.after(), val@) {
                Some(t) => r matches Some(v) && v.deep_view() == t,
                None => r is None,
            },
    {
        let n = self.number_placeholders();
        let ghost befores = self.befores();
        let ghost orders = self.orders();
        let ghost after = self.after();
        if n == 0 {
            return None;
        }
        let order = self.get_placeholder_order();
        if order.has_mixed_order() {
            return None;
        }
        let keys = order.get_sorting();
        if !is_permutation_of_indexes(keys.as_slice()) {
            return None;
        }
        if !self.pieces_are_valid() {
            return None;
        }
        let delim = self.get_cmd_delimiters();
        let chars = chars_of(val);
        let first = chars_of(delim.before.as_str());
        assert(chars@.subrange(0, chars@.len() as int) =~= val@);
        if find_in(&chars, 0, chars.len(), &first).is_none() {
            return None;
        }
        let mut ends: Vec<String> = Vec::new();
        let mut k: usize = 0;
        while k < delim.between.len()
            invariant
                befores == seq![delim.before@] + delim.between.deep_view(),
                after == delim.after@,
                k <= delim.between.len(),
                ends.deep_view() =~= delim.between.deep_view().take(k as int),
            decreases delim.between.len() - k,
        {
            let e = delim.between[k].clone();
            let ghost prev = ends.deep_view();
            ends.push(e);
            k += 1;
            assert(delim.between.deep_view().take(k as int) =~= delim.between.deep_view().take(
                k - 1,
            ).push(delim.between[k - 1]@));
        }
        ends.push(delim.after.clone());
        assert(delim.between.deep_view().take(delim.between.len() as int)
            =~= delim.between.deep_view());
        assert(ends.deep_view() =~= befores.drop_first().push(after));
        let texts = match split_fields(&chars, 0, chars.len(), &ends) {
            Some(t) => t,
            None => {
                return None;
            },
        };
        proof {
            lemma_parse_fields_len(val@, ends.deep_view());
        }
        let ghost tv = texts.deep_view();
        let mut out: Vec<String> = Vec::new();
        let mut i: usize = 0;
        while i < n
            invariant
                n == keys@.len(),
                is_permutation(keys@, n as nat),
                tv == texts.deep_view(),
                tv.len() == n,
                i <= n,
                out.deep_view() =~= Seq::new(i as nat, |j: int| tv[keys@[j] as int]),
            decreases n - i,
        {
            let t = texts[keys[i]].clone();
            let ghost prev = out.deep_view();
            out.push(t);
            assert(out.deep_view() =~= prev.push(tv[keys@[i as int] as int]));
            i += 1;
        }
        Some(out)
    }
}

/// Whether `k` is the index of the first text of `texts` that equals `t`.
pub open spec fn is_first_equal(texts: Seq<Seq<char>>, t: Seq<char>, k: int) -> bool {
    &&& 0 <= k < texts.len()
    &&& texts[k] == t
    &&& forall|j: int| 0 <= j < k ==> texts[j] != t
}

/// The index of the first text of `texts` that equals `t`, if any.
pub open spec fn first_equal(texts: Seq<Seq<char>>, t: Seq<char>) -> Option<int> {
    if exists|k: int| is_first_equal(texts, t, k) {
        Some(choose|k: int| is_first_equal(texts, t, k))
    } else {
        None
    }
}

proof fn lemma_first_equal(texts: Seq<Seq<char>>, t: Seq<char>, k: int)
    requires
        is_first_equal(texts, t, k),
    ensures
        first_equal(texts, t) == Some(k),
{
}

/// The index of the first of `texts` that equals `t`, if any.
fn find_text(texts: &Vec<String>, t: &String) -> (r: Option<usize>)
    ensures
        match first_equal(texts.deep_view(), t@) {
            Some(k) => r matches Some(i) && i == k,
            None => r is None,
        },
{
    let ghost tv = texts.deep_view();
    let mut k: usize = 0;
    while k < texts.len()
        invariant
            tv == texts.deep_view(),
            k <= tv.len(),
            forall|j: int| 0 <= j < k ==> tv[j] != t@,
        decreases tv.len() - k,
    {
        if texts[k] == *t {
            proof {
                lemma_first_equal(tv, t@, k as int);
            }
            return Some(k);
        }
        k += 1;
    }
    None
}

/// Find the variant of an enum from an answer: the index of the first variant whose text is the
/// answer without its leading and trailing white space. This is what the derived
/// `try_from_writable` of an enum does; `texts` are the texts of its variants, in order.
///
/// Error:
/// - No variant has that text: `BadInstrumentResponseString` with the trimmed answer.
pub fn variant_from_writable(texts: &Vec<String>, val: &str) -> (r: Result<usize, InstrumentError>)
    ensures
        match first_equal(texts.deep_view(), trim(val@)) {
            Some(k) => r matches Ok(i) && i == k,
            None => r matches Err(InstrumentError::BadInstrumentResponseString { msg }) && msg@
                == trim(val@),
        },
{
    let chars = chars_of(val);
    let (lo, hi) = trim_bounds(&chars);
    let trimmed = string_of(&chars.as_slice()[lo..hi]);
    match find_text(texts, &trimmed) {
        Some(k) => Ok(k),
        None => Err(InstrumentError::BadInstrumentResponseString { msg: trimmed }),
    }
}

impl CommandParseFormat {
    /// The texts of the variants of an enum whose command has exactly one empty placeholder: the
    /// command with the placeholder replaced by each variant's parameter. These are what the
    /// derived `to_writable` of an enum returns.
    pub fn variant_texts(&self, params: &Vec<String>) -> (r: Vec<String>)
        requires
            self.orders().len() == 1,
            self.orders()[0] is None,
        ensures
            r@.len() == params@.len(),
            forall|k: int|
                0 <= k < params@.len() ==> #[trigger] r@[k]@ == replace_all(
                    self.command(),
                    seq!['{', '}'],
                    params@[k]@,
                ),
    {
        let mut out: Vec<String> = Vec::new();
        let mut k: usize = 0;
        while k < params.len()
            invariant
                self.orders().len() == 1,
                self.orders()[0] is None,
                k <= params@.len(),
                out@.len() == k,
                forall|j: int|
                    0 <= j < k ==> #[trigger] out@[j]@ == replace_all(
                        self.command(),
                        seq!['{', '}'],
                        params@[j]@,
                    ),
            decreases params@.len() - k,
        {
            let t = match self.format_with_one(params[k].as_str()) {
                Ok(t) => t,
                Err(_) => {
                    String::new()
                },
            };
            out.push(t);
            k += 1;
        }
        out
    }
}

/// Whether `s` holds no bracket.
pub open spec fn no_brackets(s: Seq<char>) -> bool {
    forall|i: int| 0 <= i < s.len() ==> #[trigger] s[i] != '{' && s[i] != '}'
}

proof fn lemma_format_literal_plain(s: Seq<char>)
    requires
        no_brackets(s),
    ensures
        format_literal(s) == Some(s),
    decreases s.len(),
{
    if s.len() > 0 {
        lemma_format_literal_plain(s.drop_first());
    }
}

/// The text that ends each placeholder's text in an answer: the text in front of the next
/// placeholder, and the text behind the last placeholder for the last.
pub open spec fn field_ends(befores: Seq<Seq<char>>, after: Seq<char>) -> Seq<Seq<char>> {
    befores.drop_first().push(after)
}

/// What the fields are written as is their texts joined with their ends, when the first piece of
/// text is empty.
proof fn lemma_written_joined(lits: Seq<Seq<char>>, args: Seq<Seq<char>>, after: Seq<char>, m: int)
    requires
        lits.len() == args.len(),
        1 <= m <= args.len(),
    ensures
        interleave(lits, args, args.len()) + after == interleave(lits, args, m as nat)
            + field_ends(lits, after)[m - 1] + joined(args, field_ends(lits, after), m),
    decreases args.len() - m,
{
    let n = args.len() as int;
    let ends = field_ends(lits, after);
    if m == n {
        assert(interleave(lits, args, n as nat) + after =~= interleave(lits, args, m as nat)
            + ends[m - 1] + Seq::<char>::empty());
    } else {
        lemma_written_joined(lits, args, after, m + 1);
        assert(interleave(lits, args, (m + 1) as nat) == interleave(lits, args, m as nat)
            + lits[m] + args[m]);
        assert(interleave(lits, args, (m + 1) as nat) + ends[m] + joined(args, ends, m + 1)
            =~= interleave(lits, args, m as nat) + ends[m - 1] + joined(args, ends, m));
    }
}

/// The index that placeholder `k` carries: its order if it has one, else its own place.
pub open spec fn named_index(orders: Seq<Option<usize>>, k: int) -> int {
    match orders[k] {
        Some(o) => o as int,
        None => k,
    }
}

/// Without mixed orders, the sort key of a placeholder is the index that it carries.
proof fn lemma_sorting_is_named(orders: Seq<Option<usize>>)
    requires
        !mixed_order(orders),
        orders.len() <= usize::MAX,
    ensures
        forall|k: int|
            0 <= k < orders.len() ==> #[trigger] sorting_of(orders)[k] as int == named_index(
                orders,
                k,
            ),
{
    if forall|i: int| 0 <= i < orders.len() ==> (#[trigger] orders[i]) is None {
    } else {
        let j = choose|j: int| 0 <= j < orders.len() && !(orders[j] is None);
        assert(orders[j] is Some);
        assert forall|k: int| 0 <= k < orders.len() implies (#[trigger] orders[k]) is Some by {
            if orders[k] is None {
                assert(mixed_order(orders));
            }
        }
    }
}

/// The text that a struct's fields are written as is the text in front of each placeholder,
/// followed by the field whose index the placeholder carries (`{2}` takes the field at index 2;
/// `{}` takes the field at its own place), and then the text after the last placeholder, as
/// `format!` writes them; bracket pairs in the texts stand for one bracket.
pub proof fn written_placeholder_takes_its_field(
    befores: Seq<Seq<char>>,
    orders: Seq<Option<usize>>,
    after: Seq<char>,
    fields: Seq<Seq<char>>,
)
    requires
        orders.len() <= usize::MAX,
        fields_written(befores, orders, after, fields) is Some,
    ensures
        fields_written(befores, orders, after, fields) == Some(
            interleave(
                befores.map_values(|b: Seq<char>| format_literal(b)->0),
                Seq::new(orders.len(), |k: int| fields[named_index(orders, k)]),
                orders.len(),
            ) + format_literal(after)->0,
        ),
{
    lemma_sorting_is_named(orders);
    let n = orders.len();
    let keys = sorting_of(orders);
    assert(Seq::new(n, |k: int| fields[keys[k] as int]) =~= Seq::new(
        n,
        |k: int| fields[named_index(orders, k)],
    ));
}

/// The texts of a struct's fields read from an answer: the answer is cut at the texts between
/// the placeholders (see `parse_fields`), and the field at index `i` takes the text of the
/// placeholder at the index that placeholder `i` carries (with `{1}:{2}:{3}:{0}`, the field at
/// index 0 takes the text of the second placeholder).
pub proof fn read_field_takes_carried_placeholder(
    befores: Seq<Seq<char>>,
    orders: Seq<Option<usize>>,
    after: Seq<char>,
    val: Seq<char>,
)
    requires
        orders.len() <= usize::MAX,
        fields_read(befores, orders, after, val) is Some,
    ensures
        parse_fields(val, befores.drop_first().push(after)) matches Some(texts) && texts.len()
            == orders.len() && fields_read(befores, orders, after, val) == Some(
            Seq::new(orders.len(), |i: int| texts[named_index(orders, i)]),
        ),
{
    lemma_sorting_is_named(orders);
    lemma_parse_fields_len(val, befores.drop_first().push(after));
    let n = orders.len();
    let keys = sorting_of(orders);
    let texts = parse_fields(val, befores.drop_first().push(after))->Some_0;
    assert(Seq::new(n, |i: int| texts[keys[i] as int]) =~= Seq::new(
        n,
        |i: int| texts[named_index(orders, i)],
    ));
}

/// Reading a struct's fields back from what they are written as gives the same fields,
/// provided that: the command has no text in front of its first placeholder (the derived reader
/// does not take that text off), its texts hold no bracket, some text follows every placeholder
/// but the last, the text behind each placeholder first occurs right after the field written
/// there, and each sort key names a placeholder whose sort key names it back (the derived reader
/// gives each field the text of the placeholder that the field's own sort key names; so it is
/// when there are no orders, or when the orders swap pairs of fields).
pub proof fn struct_fields_round_trip(
    befores: Seq<Seq<char>>,
    orders: Seq<Option<usize>>,
    after: Seq<char>,
    fields: Seq<Seq<char>>,
)
    requires
        orders.len() > 0,
        fields_written(befores, orders, after, fields) is Some,
        befores[0].len() == 0,
        forall|k: int| 1 <= k < befores.len() ==> (#[trigger] befores[k]).len() > 0,
        forall|k: int| 0 <= k < befores.len() ==> no_brackets(#[trigger] befores[k]),
        no_brackets(after),
        forall|i: int|
            0 <= i < orders.len() ==> sorting_of(orders)[#[trigger] sorting_of(orders)[i] as int]
                == i,
        forall|k: int|
            0 <= k < orders.len() && (#[trigger] field_ends(befores, after)[k]).len() > 0
                ==> ends_cleanly(fields[sorting_of(orders)[k] as int], field_ends(befores, after)[k]),
    ensures
        fields_read(befores, orders, after, fields_written(befores, orders, after, fields)->0)
            == Some(fields),
{
    let n = orders.len() as int;
    let keys = sorting_of(orders);
    let lits = befores.map_values(|b: Seq<char>| format_literal(b)->0);
    let args = Seq::new(n as nat, |k: int| fields[keys[k] as int]);
    let ends = field_ends(befores, after);
    assert forall|k: int| 0 <= k < n implies lits[k] == befores[k] by {
        lemma_format_literal_plain(befores[k]);
    }
    assert(lits =~= befores);
    lemma_format_literal_plain(after);
    let written = interleave(lits, args, n as nat) + after;
    lemma_written_joined(lits, args, after, 1);
    assert(interleave(lits, args, 0) == Seq::<char>::empty());

    lemma_parse_joined(args, ends, 0);
    assert(ends.skip(0) =~= ends);
    assert(split_once(written, befores[0]) is Some) by {
        assert(written.subrange(0, 0) =~= befores[0]);
        lemma_first_occurrence_unique(written, befores[0], 0);
    }
    assert(Seq::new(n as nat, |i: int| args[keys[i] as int]) =~= fields) by {
    }
}

/// An enum's variant is found again from its text, also when white space (such as the end of a
/// line) follows it in the answer: provided that no earlier variant has the same text, and that
/// the text has no white space at either end.
pub proof fn variant_text_round_trip(texts: Seq<Seq<char>>, k: int, ws: Seq<char>)
    requires
        0 <= k < texts.len(),
        !repeated_at(texts, k),
        trim(texts[k]) == texts[k],
        forall|i: int| 0 <= i < ws.len() ==> is_white_space(#[trigger] ws[i]),
    ensures
        first_equal(texts, trim(texts[k] + ws)) == Some(k),
{
    lemma_trim_trailing_white_space(texts[k], ws);
    assert forall|j: int| 0 <= j < k implies texts[j] != texts[k] by {
    }
    lemma_first_equal(texts, texts[k], k);
}

/// Whether the value at `i` equals an earlier one.
pub open spec fn repeated_at(values: Seq<Seq<char>>, i: int) -> bool {
    exists|j: int| 0 <= j < i && values[j] == values[i]
}

/// The indexes of the first `n` values that repeat an earlier one, in increasing order.
pub open spec fn repeats(values: Seq<Seq<char>>, n: nat) -> Seq<usize>
    decreases n,
{
    if n == 0 {
        Seq::empty()
    } else if repeated_at(values, n - 1) {
        repeats(values, (n - 1) as nat).push((n - 1) as usize)
    } else {
        repeats(values, (n - 1) as nat)
    }
}

/// Check the values for duplicates: the indexes of the values that repeat an earlier one, in
/// increasing order. The derive reports "duplicate value found: must be unique" at each.
pub fn check_duplicates(values: &Vec<String>) -> (r: Vec<usize>)
    ensures
        r@ == repeats(values.deep_view(), values@.len()),
{
    let ghost vv = values.deep_view();
    let mut out: Vec<usize> = Vec::new();
    let mut i: usize = 0;
    while i < values.len()
        invariant
            vv == values.deep_view(),
            i <= vv.len(),
            out@ == repeats(vv, i as nat),
        decreases vv.len() - i,
    {
        let mut j: usize = 0;
        let mut seen = false;
        while j < i
            invariant
                vv == values.deep_view(),
                j <= i < vv.len(),
                seen == exists|l: int| 0 <= l < j && vv[l] == vv[i as int],
            decreases i - j,
        {
            assert(vv[j as int] == values@[j as int]@);
            if values[j] == values[i] {
                seen = true;
            }
            j += 1;
        }
        if seen {
            out.push(i);
        }
        i += 1;
    }
    out
}

/// The message when an attribute is missing.
pub open spec fn missing_attribute_message(name: Seq<char>) -> Seq<char> {
    "missing attribute for derive InstrumentParam: #["@ + name + "(...)]"@
}

/// Find the attribute called `name` among attributes with the names `names` (the first one).
///
/// Error:
/// - No attribute has that name: the message that it is missing.
pub fn get_named_attribute_index(names: &Vec<String>, name: &str) -> (r: Result<usize, String>)
    ensures
        match first_equal(names.deep_view(), name@) {
            Some(k) => r matches Ok(i) && i == k,
            None => r matches Err(m) && m@ == missing_attribute_message(name@),
        },
{
    let wanted = name.to_owned();
    match find_text(names, &wanted) {
        Some(k) => Ok(k),
        None => {
            let mut m = String::from_str("missing attribute for derive InstrumentParam: #[");
            m.append(name);
            m.append("(...)]");
            Err(m)
        },
    }
}

} // verus!
