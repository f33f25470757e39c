//! Formatting of command strings with their arguments, and the parts of a command string that
//! the formatting needs.
use vstd::prelude::*;

use crate::sort::{is_stable_argsort, stable_argsort};
use crate::text::{
    chars_of, decimal, parse_usize, push_usize, replace, replace_all, string_of, usize_text,
};

verus! {

/// The first placeholder of `s`: the text before the first `{`, the text between it and the next
/// `}`, and the text after that `}`. `None` if there is no such pair of brackets.
#[verifier::opaque]
pub open spec fn next_placeholder(s: Seq<char>) -> Option<(Seq<char>, Seq<char>, Seq<char>)> {
    if exists|a: int| 0 <= a < s.len() && s[a] == '{' {
        let a = choose|a: int|
            0 <= a < s.len() && s[a] == '{' && forall|j: int| 0 <= j < a ==> s[j] != '{';
        if exists|b: int| a < b < s.len() && s[b] == '}' {
            let b = choose|b: int|
                a < b < s.len() && s[b] == '}' && forall|j: int| a < j < b ==> s[j] != '}';
            Some((s.take(a), s.subrange(a + 1, b), s.skip(b + 1)))
        } else {
            None
        }
    } else {
        None
    }
}

/// The order written inside a placeholder: `None` for an empty one, the number otherwise.
/// `Err` if the text is not a number.
pub open spec fn order_of(inner: Seq<char>) -> Result<Option<usize>, ()> {
    if inner.len() == 0 {
        Ok(None)
    } else {
        match usize_text(inner) {
            Some(v) => Ok(Some(v)),
            None => Err(()),
        }
    }
}

/// The error message for an order that is not a number.
pub open spec fn order_error(inner: Seq<char>) -> Seq<char> {
    "cannot parse "@ + inner + " to usize"@
}

/// The next part of a command string.
pub enum NextPart {
    /// A placeholder: the text before it, its order, and the rest of the command.
    Placeholder(Seq<char>, Option<usize>, Seq<char>),
    /// No more placeholders: the rest of the command.
    Last(Seq<char>),
}

/// The next part of the command string `s`; `Err` with a message if the next placeholder holds
/// something else than a number.
pub open spec fn next_part(s: Seq<char>) -> Result<NextPart, Seq<char>> {
    match next_placeholder(s) {
        None => Ok(NextPart::Last(s)),
        Some((before, inner, rest)) => match order_of(inner) {
            Err(_) => Err(order_error(inner)),
            Ok(order) => Ok(NextPart::Placeholder(before, order, rest)),
        },
    }
}

/// The placeholders of `s`, in order: the text before each, its order, and the text after the
/// last one. `Err` with a message if an order is not a number.
#[verifier::opaque]
pub open spec fn placeholders_of(s: Seq<char>) -> Result<
    (Seq<Seq<char>>, Seq<Option<usize>>, Seq<char>),
    Seq<char>,
>
    decreases s.len(),
{
    match next_placeholder(s) {
        None => Ok((Seq::empty(), Seq::empty(), s)),
        Some((before, inner, rest)) => match order_of(inner) {
            Err(_) => Err(order_error(inner)),
            Ok(order) => if rest.len() < s.len() {
                match placeholders_of(rest) {
                    Err(e) => Err(e),
                    Ok((befores, orders, last)) => Ok(
                        (seq![before] + befores, seq![order] + orders, last),
                    ),
                }
            } else {
                Err(Seq::empty())
            },
        },
    }
}

/// Each text followed by an empty placeholder `{}`.
pub open spec fn with_empty_placeholders(befores: Seq<Seq<char>>) -> Seq<char>
    decreases befores.len(),
{
    if befores.len() == 0 {
        Seq::empty()
    } else {
        befores[0] + seq!['{', '}'] + with_empty_placeholders(befores.drop_first())
    }
}

/// A command whose placeholders are all empty is the text before each placeholder followed by
/// `{}`, and then the text after the last placeholder: it is made of the parts that are found
/// in it.
pub proof fn unordered_command_is_its_parts(s: Seq<char>)
    requires
        placeholders_of(s) matches Ok((befores, orders, last)) && forall|k: int|
            0 <= k < orders.len() ==> (#[trigger] orders[k]) is None,
    ensures
        placeholders_of(s) matches Ok((befores, orders, last)) && s == with_empty_placeholders(
            befores,
        ) + last,
    decreases s.len(),
{
    reveal(placeholders_of);
    lemma_next_placeholder(s);
    match next_placeholder(s) {
        None => {
            assert(with_empty_placeholders(Seq::empty()) + s =~= s);
        },
        Some((before, inner, rest)) => {
            let (befores, orders, last) = placeholders_of(s)->Ok_0;
            let (bs, os, l) = placeholders_of(rest)->Ok_0;
            assert(orders[0] is None);
            assert(inner.len() == 0);
            assert(forall|k: int| 0 <= k < os.len() ==> #[trigger] os[k] == orders[k + 1]);
            unordered_command_is_its_parts(rest);
            assert(befores.drop_first() =~= bs);
            assert(inner =~= Seq::<char>::empty());
            assert(s =~= before + seq!['{', '}'] + with_empty_placeholders(bs) + l);
        },
    }
}

/// Whether `s` holds a `{` with a `}` somewhere after it, that is, a placeholder.
pub open spec fn has_placeholder(s: Seq<char>) -> bool {
    exists|a: int, b: int| 0 <= a < b < s.len() && s[a] == '{' && s[b] == '}'
}

/// Each text followed by a placeholder with the text between its brackets.
pub open spec fn with_placeholders(befores: Seq<Seq<char>>, inners: Seq<Seq<char>>) -> Seq<char>
    decreases befores.len(),
{
    if befores.len() == 0 {
        Seq::empty()
    } else {
        befores[0] + seq!['{'] + inners[0] + seq!['}'] + with_placeholders(
            befores.drop_first(),
            inners.drop_first(),
        )
    }
}

/// `s` is made of the texts `befores`, each followed by a placeholder whose brackets hold the
/// matching text of `inners`, and then `last`: no text before a placeholder holds a `{`, no text
/// in one holds a `}`, each of these is the order of its placeholder, and `last` holds no
/// placeholder.
pub open spec fn is_made_of(
    s: Seq<char>,
    befores: Seq<Seq<char>>,
    inners: Seq<Seq<char>>,
    orders: Seq<Option<usize>>,
    last: Seq<char>,
) -> bool {
    &&& befores.len() == orders.len()
    &&& inners.len() == orders.len()
    &&& forall|k: int|
        0 <= k < orders.len() ==> order_of(#[trigger] inners[k]) == Ok::<Option<usize>, ()>(
            orders[k],
        )
    &&& forall|k: int| 0 <= k < orders.len() ==> !(#[trigger] befores[k]).contains('{')
    &&& forall|k: int| 0 <= k < orders.len() ==> !(#[trigger] inners[k]).contains('}')
    &&& !has_placeholder(last)
    &&& s == with_placeholders(befores, inners) + last
}

/// The first placeholder of `s` is its first `{` and the first `}` after it; without one, `s`
/// holds no placeholder.
proof fn lemma_next_placeholder_shape(s: Seq<char>)
    ensures
        next_placeholder(s) matches Some((before, inner, rest)) ==> !before.contains('{')
            && !inner.contains('}'),
        next_placeholder(s) is None ==> !has_placeholder(s),
{
    reveal(next_placeholder);
    if exists|a: int| 0 <= a < s.len() && s[a] == '{' {
        assert(exists|a: int|
            0 <= a < s.len() && s[a] == '{' && forall|j: int| 0 <= j < a ==> s[j] != '{') by {
            lemma_least_index(s, '{', 0);
        }
        let a = choose|a: int|
            0 <= a < s.len() && s[a] == '{' && forall|j: int| 0 <= j < a ==> s[j] != '{';
        if exists|b: int| a < b < s.len() && s[b] == '}' {
            assert(exists|b: int|
                a < b < s.len() && s[b] == '}' && forall|j: int| a < j < b ==> s[j] != '}') by {
                lemma_least_index(s, '}', a + 1);
            }
            let b = choose|b: int|
                a < b < s.len() && s[b] == '}' && forall|j: int| a < j < b ==> s[j] != '}';
            let before = s.take(a);
            let inner = s.subrange(a + 1, b);
            assert forall|j: int| 0 <= j < before.len() implies #[trigger] before[j] != '{' by {}
            assert forall|j: int| 0 <= j < inner.len() implies #[trigger] inner[j] != '}' by {
                assert(inner[j] == s[a + 1 + j]);
            }
        } else {
            assert forall|x: int, y: int|
                0 <= x < y < s.len() && s[x] == '{' implies s[y] != '}' by {
                assert(a <= x);
            }
        }
    }
}

/// A command is made of the parts that are found in it: the text before each placeholder, the
/// placeholder with its order between its brackets, and the text after the last one.
pub proof fn command_is_its_parts(s: Seq<char>)
    requires
        command_format(s) is Ok,
    ensures
        command_format(s) matches Ok((befores, orders, last)) && befores.len() >= 1 && exists|
            inners: Seq<Seq<char>>,
        | is_made_of(s, befores, inners, orders, last),
{
    lemma_placeholders_made_of(s);
    let (befores, orders, last) = placeholders_of(s)->Ok_0;
    assert(command_format(s) == Ok::<
        (Seq<Seq<char>>, Seq<Option<usize>>, Seq<char>),
        Seq<char>,
    >((befores, orders, last)));
}

proof fn lemma_placeholders_made_of(s: Seq<char>)
    requires
        placeholders_of(s) is Ok,
    ensures
        exists|inners: Seq<Seq<char>>|
            is_made_of(
                s,
                (placeholders_of(s)->Ok_0).0,
                inners,
                (placeholders_of(s)->Ok_0).1,
                (placeholders_of(s)->Ok_0).2,
            ),
    decreases s.len(),
{
    reveal(placeholders_of);
    lemma_next_placeholder(s);
    lemma_next_placeholder_shape(s);
    let (befores, orders, last) = placeholders_of(s)->Ok_0;
    match next_placeholder(s) {
        None => {
            assert(befores =~= Seq::empty());
            assert(is_made_of(s, befores, Seq::empty(), orders, last));
        },
        Some((before, inner, rest)) => {
            lemma_placeholders_made_of(rest);
            let (bs, os, l) = placeholders_of(rest)->Ok_0;
            let ins = choose|ins: Seq<Seq<char>>| is_made_of(rest, bs, ins, os, l);
            let inners = seq![inner] + ins;
            assert(befores.drop_first() =~= bs);
            assert(inners.drop_first() =~= ins);
            assert forall|k: int| 0 <= k < orders.len() implies order_of(#[trigger] inners[k])
                == Ok::<Option<usize>, ()>(orders[k]) by {
                if k > 0 {
                    assert(inners[k] == ins[k - 1]);
                    assert(orders[k] == os[k - 1]);
                }
            }
            assert forall|k: int| 0 <= k < orders.len() implies !(#[trigger] befores[k]).contains(
                '{',
            ) by {
                if k > 0 {
                    assert(befores[k] == bs[k - 1]);
                }
            }
            assert forall|k: int| 0 <= k < orders.len() implies !(#[trigger] inners[k]).contains(
                '}',
            ) by {
                if k > 0 {
                    assert(inners[k] == ins[k - 1]);
                }
            }
            assert(s =~= before + seq!['{'] + inner + seq!['}'] + with_placeholders(bs, ins) + l);
            assert(is_made_of(s, befores, inners, orders, last));
        },
    }
}

/// `res` with the placeholders `befores` and `orders` put in front.
pub open spec fn prepend(
    befores: Seq<Seq<char>>,
    orders: Seq<Option<usize>>,
    res: Result<(Seq<Seq<char>>, Seq<Option<usize>>, Seq<char>), Seq<char>>,
) -> Result<(Seq<Seq<char>>, Seq<Option<usize>>, Seq<char>), Seq<char>> {
    match res {
        Ok((bs, os, l)) => Ok((befores + bs, orders + os, l)),
        Err(e) => Err(e),
    }
}

pub proof fn lemma_prepend_twice(
    bs1: Seq<Seq<char>>,
    os1: Seq<Option<usize>>,
    bs2: Seq<Seq<char>>,
    os2: Seq<Option<usize>>,
    res: Result<(Seq<Seq<char>>, Seq<Option<usize>>, Seq<char>), Seq<char>>,
)
    ensures
        prepend(bs1, os1, prepend(bs2, os2, res)) == prepend(bs1 + bs2, os1 + os2, res),
{
    match res {
        Ok((bs, os, l)) => {
            assert(bs1 + (bs2 + bs) =~= bs1 + bs2 + bs);
            assert(os1 + (os2 + os) =~= os1 + os2 + os);
        },
        Err(_) => {},
    }
}

/// One step of `placeholders_of`.
pub proof fn lemma_placeholders_of_step(s: Seq<char>)
    ensures
        placeholders_of(s) == match next_part(s) {
            Err(e) => Err(e),
            Ok(NextPart::Last(l)) => Ok((Seq::empty(), Seq::empty(), l)),
            Ok(NextPart::Placeholder(before, order, rest)) => prepend(
                seq![before],
                seq![order],
                placeholders_of(rest),
            ),
        },
        next_part(s) matches Ok(NextPart::Placeholder(_, _, rest)) ==> rest.len() < s.len(),
{
    reveal(placeholders_of);
    lemma_next_placeholder(s);
}

/// The first placeholder splits `s` into the text before it, its brackets with the text between
/// them, and the rest.
pub proof fn lemma_next_placeholder(s: Seq<char>)
    ensures
        next_placeholder(s) matches Some((before, inner, rest)) ==> before.len() + inner.len()
            + rest.len() + 2 == s.len() && s == before + seq!['{'] + inner + seq!['}'] + rest,
{
    reveal(next_placeholder);
    if exists|a: int| 0 <= a < s.len() && s[a] == '{' {
        let a = choose|a: int|
            0 <= a < s.len() && s[a] == '{' && forall|j: int| 0 <= j < a ==> s[j] != '{';
        assert(exists|a: int|
            0 <= a < s.len() && s[a] == '{' && forall|j: int| 0 <= j < a ==> s[j] != '{') by {
            lemma_least_index(s, '{', 0);
        }
        if exists|b: int| a < b < s.len() && s[b] == '}' {
            assert(exists|b: int|
                a < b < s.len() && s[b] == '}' && forall|j: int| a < j < b ==> s[j] != '}') by {
                lemma_least_index(s, '}', a + 1);
            }
            let b = choose|b: int|
                a < b < s.len() && s[b] == '}' && forall|j: int| a < j < b ==> s[j] != '}';
            assert(s =~= s.take(a) + seq!['{'] + s.subrange(a + 1, b) + seq!['}'] + s.skip(b + 1));
        }
    }
}

/// If `c` occurs in `s` at or after `from`, there is a first such place.
proof fn lemma_least_index(s: Seq<char>, c: char, from: int)
    requires
        0 <= from,
        exists|a: int| from <= a < s.len() && s[a] == c,
    ensures
        exists|a: int| from <= a < s.len() && s[a] == c && forall|j: int| from <= j < a ==> s[j] != c,
    decreases s.len() - from,
{
    if s[from] != c {
        let a = choose|a: int| from <= a < s.len() && s[a] == c;
        lemma_least_index(s, c, from + 1);
        let b = choose|b: int|
            from + 1 <= b < s.len() && s[b] == c && forall|j: int| from + 1 <= j < b ==> s[j] != c;
    }
}

/// The first placeholder of `s`: the position of the first `{` and of the first `}` after it.
pub(crate) fn find_placeholder(s: &[char]) -> (r: Option<(usize, usize)>)
    ensures
        match next_placeholder(s@) {
            Some((before, inner, rest)) => r matches Some((a, b)) && a < b < s.len() && before
                == s@.take(a as int) && inner == s@.subrange(a + 1, b as int) && rest == s@.skip(
                b + 1,
            ),
            None => r is None,
        },
{
    reveal(next_placeholder);
    let mut a: usize = 0;
    while a < s.len() && s[a] != '{'
        invariant
            a <= s.len(),
            forall|j: int| 0 <= j < a ==> s@[j] != '{',
        decreases s.len() - a,
    {
        a += 1;
    }
    if a == s.len() {
        return None;
    }
    let ghost ca = choose|x: int|
        0 <= x < s@.len() && s@[x] == '{' && forall|j: int| 0 <= j < x ==> s@[j] != '{';
    assert(ca == a) by {
    }
    let mut b: usize = a + 1;
    while b < s.len() && s[b] != '}'
        invariant
            a < b <= s.len(),
            forall|j: int| a < j < b ==> s@[j] != '}',
        decreases s.len() - b,
    {
        b += 1;
    }
    if b == s.len() {
        return None;
    }
    let ghost cb = choose|x: int|
        a < x < s@.len() && s@[x] == '}' && forall|j: int| a < j < x ==> s@[j] != '}';
    assert(cb == b) by {
    }
    Some((a, b))
}

/// Parse the order inside a placeholder.
///
/// - If the string is empty, the return is `None`.
/// - If the string contains a number, the return is `Some(number)`.
///
/// Error:
/// - Cannot parse the string to a `usize`.
pub fn parse_order_str(s: &str) -> (r: Result<Option<usize>, String>)
    ensures
        match order_of(s@) {
            Ok(o) => r == Ok::<Option<usize>, String>(o),
            Err(_) => r matches Err(m) && m@ == order_error(s@),
        },
{
    let chars = chars_of(s);
    if chars.len() == 0 {
        return Ok(None);
    }
    assert(chars@.subrange(0, chars@.len() as int) =~= chars@);
    match parse_usize(&chars, 0, chars.len()) {
        Some(v) => Ok(Some(v)),
        None => {
            let mut m = String::from_str("cannot parse ");
            m.append(s);
            m.append(" to usize");
            Err(m)
        },
    }
}

/// What comes before a placeholder, its order, and the rest of the command.
#[derive(Debug, Default)]
struct PrPlaceholder {
    before: String,
    order: Option<usize>,
    remainder: String,
}

/// The outcome of looking for the next placeholder.
#[derive(Debug)]
enum ParseReturn {
    /// A placeholder was found.
    Placeholder(PrPlaceholder),
    /// No more placeholders: the rest of the command.
    Last(String),
}

/// Parse the next placeholder from a given string slice.
fn parse_next(s: &str) -> (r: Result<ParseReturn, String>)
    ensures
        match next_part(s@) {
            Ok(NextPart::Last(last)) => r matches Ok(ParseReturn::Last(l)) && l@ == last,
            Err(e) => r matches Err(m) && m@ == e,
            Ok(NextPart::Placeholder(before, order, rest)) => r matches Ok(
                ParseReturn::Placeholder(p),
            ) && p.before@ == before && p.order == order && p.remainder@ == rest,
        },
{
    let chars = chars_of(s);
    match find_placeholder(&chars) {
        None => Ok(ParseReturn::Last(string_of(&chars))),
        Some((a, b)) => {
            let order_str = string_of(&chars.as_slice()[a + 1..b]);
            let order = parse_order_str(order_str.as_str())?;
            let before = string_of(&chars.as_slice()[0..a]);
            let remainder = string_of(&chars.as_slice()[b + 1..chars.len()]);
            Ok(ParseReturn::Placeholder(PrPlaceholder { before, order, remainder }))
        },
    }
}

/// The delimiters of a command string.
///
/// For a command `"XXX{},{}YY{}ZZZ"` this holds `"XXX"` in `before`, `[",", "YY"]` in `between`
/// and `"ZZZ"` in `after`.
#[derive(Debug, Default, PartialEq)]
pub struct CmdDelimiters {
    pub before: String,
    pub between: Vec<String>,
    pub after: String,
}

/// The order of the placeholders, one entry per placeholder (`None` for an unordered one).
#[derive(Debug, Default)]
pub struct PlaceholderOrder {
    order: Vec<Option<usize>>,
}

/// The sort keys of placeholders with these orders: the positions `0..n` if no placeholder has
/// an order, the orders themselves if all have one.
pub open spec fn sorting_of(order: Seq<Option<usize>>) -> Seq<usize> {
    if forall|i: int| 0 <= i < order.len() ==> (#[trigger] order[i]) is None {
        Seq::new(order.len(), |i: int| i as usize)
    } else {
        order.map_values(|o: Option<usize>| o->0)
    }
}

/// Whether some placeholders have an order and others do not.
pub open spec fn mixed_order(order: Seq<Option<usize>>) -> bool {
    &&& exists|i: int| 0 <= i < order.len() && (#[trigger] order[i]) is Some
    &&& exists|i: int| 0 <= i < order.len() && (#[trigger] order[i]) is None
}

impl PlaceholderOrder {
    /// The orders, one per placeholder.
    pub closed spec fn orders(&self) -> Seq<Option<usize>> {
        self.order@
    }

    /// Check if all placeholders have an order.
    pub fn all_have_order(&self) -> (r: bool)
        ensures
            r == forall|i: int| 0 <= i < self.orders().len() ==> (#[trigger] self.orders()[i]) is Some,
    {
        let mut i: usize = 0;
        while i < self.order.len()
            invariant
                i <= self.order@.len(),
                forall|j: int| 0 <= j < i ==> (#[trigger] self.order@[j]) is Some,
            decreases self.order@.len() - i,
        {
            if self.order[i].is_none() {
                return false;
            }
            i += 1;
        }
        true
    }

    /// Check if no placeholder has an order.
    pub fn all_have_no_order(&self) -> (r: bool)
        ensures
            r == forall|i: int| 0 <= i < self.orders().len() ==> (#[trigger] self.orders()[i]) is None,
    {
        let mut i: usize = 0;
        while i < self.order.len()
            invariant
                i <= self.order@.len(),
                forall|j: int| 0 <= j < i ==> (#[trigger] self.order@[j]) is None,
            decreases self.order@.len() - i,
        {
            if self.order[i].is_some() {
                return false;
            }
            i += 1;
        }
        true
    }

    /// Check if the ordering is mixed.
    pub fn has_mixed_order(&self) -> (r: bool)
        ensures
            r == mixed_order(self.orders()),
    {
        !self.all_have_order() && !self.all_have_no_order()
    }

    /// The sort keys of the placeholders: the positions `0..n` if none has an order, the orders
    /// if all have one.
    ///
    /// Example: orders `[Some(2), Some(0), Some(1)]` give `[2, 0, 1]`.
    pub fn get_sorting(&self) -> (r: Vec<usize>)
        requires
            !mixed_order(self.orders()),
        ensures
            r@ == sorting_of(self.orders()),
    {
        if self.all_have_no_order() {
            let mut v: Vec<usize> = Vec::new();
            let mut i: usize = 0;
            while i < self.order.len()
                invariant
                    i <= self.order@.len(),
                    v@ =~= Seq::new(i as nat, |j: int| j as usize),
                decreases self.order@.len() - i,
            {
                v.push(i);
                i += 1;
            }
            v
        } else {
            let ghost o = self.order@;
            assert(forall|j: int| 0 <= j < o.len() ==> (#[trigger] o[j]) is Some) by {
                if exists|j: int| 0 <= j < o.len() && (#[trigger] o[j]) is None {
                    let k = choose|k: int| 0 <= k < o.len() && !(o[k] is None);
                }
            }
            let mut v: Vec<usize> = Vec::new();
            let mut i: usize = 0;
            while i < self.order.len()
                invariant
                    o == self.order@,
                    forall|j: int| 0 <= j < o.len() ==> (#[trigger] o[j]) is Some,
                    i <= o.len(),
                    v@ =~= o.take(i as int).map_values(|x: Option<usize>| x->0),
                decreases o.len() - i,
            {
                match self.order[i] {
                    Some(x) => v.push(x),
                    None => {},
                }
                i += 1;
            }
            v
        }
    }

    /// The elements of `sl` ordered by the sort keys of the placeholders (stably; only as many
    /// elements as there are both elements and placeholders).
    pub fn sort_slice<'a, T>(&self, sl: &'a [T]) -> (r: Vec<&'a T>)
        requires
            !mixed_order(self.orders()),
        ensures
            exists|perm: Seq<usize>|
                is_stable_argsort(sorting_of(self.orders()).take(r@.len() as int), perm) && r@
                    =~= perm.map_values(|i: usize| &sl@[i as int]),
            r@.len() == if sl@.len() < self.orders().len() {
                sl@.len()
            } else {
                self.orders().len()
            },
    {
        let sorting_order = self.get_sorting();
        let m = if sl.len() < sorting_order.len() {
            sl.len()
        } else {
            sorting_order.len()
        };
        let perm = stable_argsort(&sorting_order.as_slice()[0..m]);
        let mut r: Vec<&'a T> = Vec::new();
        let mut k: usize = 0;
        while k < perm.len()
            invariant
                perm@.len() == m,
                m <= sl@.len(),
                forall|j: int| 0 <= j < m ==> #[trigger] perm@[j] < m,
                k <= m,
                r@ =~= perm@.take(k as int).map_values(|i: usize| &sl@[i as int]),
            decreases m - k,
        {
            r.push(&sl[perm[k]]);
            k += 1;
        }
        r
    }

    /// How many orders there are (equal to the number of placeholders).
    pub fn len(&self) -> (r: usize)
        ensures
            r == self.orders().len(),
    {
        self.order.len()
    }

    /// Push a new order.
    fn push(&mut self, val: Option<usize>)
        ensures
            final(self).orders() == old(self).orders().push(val),
    {
        self.order.push(val);
    }
}

/// The error message for a command without placeholder.
pub open spec fn no_placeholder_error(last: Seq<char>) -> Seq<char> {
    "command "@ + last + " contains no placeholder"@
}

/// The placeholders of the command `s` (see `placeholders_of`), of which there must be one at
/// least.
pub open spec fn command_format(s: Seq<char>) -> Result<
    (Seq<Seq<char>>, Seq<Option<usize>>, Seq<char>),
    Seq<char>,
> {
    match placeholders_of(s) {
        Err(e) => Err(e),
        Ok((befores, orders, last)) => if befores.len() == 0 {
            Err(no_placeholder_error(last))
        } else {
            Ok((befores, orders, last))
        },
    }
}

/// A parsed command string, for formatting it with its arguments.
#[derive(Debug)]
pub struct CommandParseFormat {
    command: String,
    delim: CmdDelimiters,
    order: PlaceholderOrder,
}

impl CommandParseFormat {
    /// There is one text before each placeholder.
    #[verifier::type_invariant]
    spec fn one_text_per_placeholder(self) -> bool {
        self.delim.between@.len() + 1 == self.order.orders().len()
    }

    /// The command string.
    pub closed spec fn command(&self) -> Seq<char> {
        self.command@
    }

    /// The text before each placeholder.
    pub closed spec fn befores(&self) -> Seq<Seq<char>> {
        seq![self.delim.before@] + self.delim.between.deep_view()
    }

    /// The text after the last placeholder.
    pub closed spec fn after(&self) -> Seq<char> {
        self.delim.after@
    }

    /// The order of each placeholder.
    pub closed spec fn orders(&self) -> Seq<Option<usize>> {
        self.order.orders()
    }

    /// Parse a command string.
    ///
    /// Error:
    /// - A placeholder holds something else than a number.
    /// - The command contains no placeholder.
    pub fn try_from(value: &str) -> (r: Result<CommandParseFormat, String>)
        ensures
            match command_format(value@) {
                Ok((befores, orders, last)) => r matches Ok(f) && f.command() == value@
                    && f.befores() == befores && f.orders() == orders && f.after() == last,
                Err(e) => r matches Err(m) && m@ == e,
            },
    {
        let command = string_of(&chars_of(value));
        let mut delim = CmdDelimiters { before: String::new(), between: Vec::new(), after: String::new() };
        let mut order = PlaceholderOrder { order: Vec::new() };
        proof {
            lemma_placeholders_of_step(value@);
        }
        let parsed = parse_next(value)?;
        let mut remainder = match parsed {
            ParseReturn::Placeholder(PrPlaceholder { before, order: ord, remainder }) => {
                delim.before = before;
                order.push(ord);
                remainder
            },
            ParseReturn::Last(l) => {
                let mut m = String::from_str("command ");
                m.append(l.as_str());
                m.append(" contains no placeholder");
                return Err(m);
            },
        };
        loop
            invariant
                order.orders().len() == delim.between.deep_view().len() + 1,
                placeholders_of(value@) == prepend(
                    seq![delim.before@] + delim.between.deep_view(),
                    order.orders(),
                    placeholders_of(remainder@),
                ),
                command@ == value@,
            ensures
                command@ == value@,
                order.orders().len() == delim.between.deep_view().len() + 1,
                placeholders_of(value@) == Ok::<
                    (Seq<Seq<char>>, Seq<Option<usize>>, Seq<char>),
                    Seq<char>,
                >((seq![delim.before@] + delim.between.deep_view(), order.orders(), delim.after@)),
            decreases remainder@.len(),
        {
            proof {
                lemma_placeholders_of_step(remainder@);
            }
            let ghost prev_bs = seq![delim.before@] + delim.between.deep_view();
            let ghost prev_orders = order.orders();
            let parsed = parse_next(remainder.as_str())?;
            match parsed {
                ParseReturn::Placeholder(PrPlaceholder { before, order: ord, remainder: rest }) => {
                    let ghost b = before@;
                    delim.between.push(before);
                    order.push(ord);
                    proof {
                        let res = placeholders_of(rest@);
                        assert(prepend(prev_bs, prev_orders, prepend(seq![b], seq![ord], res))
                            == prepend(
                            seq![delim.before@] + delim.between.deep_view(),
                            order.orders(),
                            res,
                        )) by {
                            assert(prev_bs + seq![b] =~= seq![delim.before@]
                                + delim.between.deep_view());
                            assert(prev_orders + seq![ord] =~= order.orders());
                            match res {
                                Ok((bs, os, l)) => {
                                    assert(prev_bs + (seq![b] + bs) =~= prev_bs + seq![b] + bs);
                                    assert(prev_orders + (seq![ord] + os) =~= prev_orders
                                        + seq![ord] + os);
                                },
                                Err(_) => {},
                            }
                        }
                    }
                    remainder = rest;
                },
                ParseReturn::Last(last) => {
                    delim.after = last;
                    break;
                },
            }
        }
        Ok(CommandParseFormat { command, delim, order })
    }

    /// Get the command.
    pub fn get_command(&self) -> (r: &str)
        ensures
            r@ == self.command(),
    {
        self.command.as_str()
    }

    /// Get the delimiters.
    pub fn get_cmd_delimiters(&self) -> (r: &CmdDelimiters)
        ensures
            seq![r.before@] + r.between.deep_view() == self.befores(),
            r.after@ == self.after(),
            r.between.len() + 1 == self.orders().len(),
    {
        proof {
            use_type_invariant(self);
        }
        &self.delim
    }

    /// Get the sorting order of the placeholders.
    pub fn get_placeholder_order(&self) -> (r: &PlaceholderOrder)
        ensures
            r.orders() == self.orders(),
    {
        &self.order
    }

    /// Get the number of placeholders (equal to the number of stored orders).
    pub fn number_placeholders(&self) -> (r: usize)
        ensures
            r == self.orders().len(),
            self.befores().len() == r,
    {
        proof {
            use_type_invariant(self);
        }
        self.order.len()
    }

    /// Replace the `{}` in the command string with `s`.
    ///
    /// This is meant for enums, whose command has exactly one empty placeholder `{}`.
    ///
    /// Error:
    /// - The number of placeholders is not one.
    /// - The placeholder has an order.
    pub fn format_with_one(&self, s: &str) -> (r: Result<String, String>)
        ensures
            self.orders().len() != 1 ==> (r matches Err(m) && m@
                == "number of {} placeholders in formatting string must be equal to one"@),
            self.orders().len() == 1 && self.orders()[0] is Some ==> (r matches Err(m) && m@
                == "the command string has order and thus cannot be formatted in this way."@),
            self.orders().len() == 1 && self.orders()[0] is None ==> (r matches Ok(t) && t@
                == replace_all(self.command(), seq!['{', '}'], s@)),
    {
        if self.number_placeholders() != 1 {
            return Err(
                String::from_str("number of {} placeholders in formatting string must be equal to one"),
            );
        }
        if !self.order.all_have_no_order() {
            return Err(
                String::from_str(
                    "the command string has order and thus cannot be formatted in this way.",
                ),
            );
        }
        let cmd = chars_of(self.command.as_str());
        let rep = chars_of(s);
        let pat = vec!['{', '}'];
        let out = replace(&cmd, &pat, &rep);
        Ok(string_of(&out))
    }
}

/// The error of a command string for an enum that has not exactly one empty placeholder.
pub open spec fn enum_placeholder_error() -> Seq<char> {
    "command string must have exactly one empty {}"@
}

/// The error of a command string for a struct whose number of placeholders differs from its
/// number of fields.
pub open spec fn field_count_error(fields: nat, placeholders: nat) -> Seq<char> {
    "struct has "@ + decimal(fields) + " field(s) but "@ + decimal(placeholders)
        + " placeholders were provided"@
}

/// The error of a command string that mixes ordered and unordered placeholders.
pub open spec fn mixed_order_error() -> Seq<char> {
    "a mix of positional {0} and non positional {} placeholders is not allowed"@
}

impl CommandParseFormat {
    /// The parsed command string of an enum, which must have exactly one empty placeholder `{}`.
    ///
    /// If created in this way, `format_with_one` succeeds for every parameter.
    pub fn try_new_enum(cmd: &str) -> (r: Result<CommandParseFormat, String>)
        ensures
            match command_format(cmd@) {
                Ok((befores, orders, last)) => if orders.len() == 1 && orders[0] is None {
                    r matches Ok(f) && f.command() == cmd@ && f.befores() == befores
                        && f.orders() == orders && f.after() == last
                } else {
                    r matches Err(m) && m@ == enum_placeholder_error()
                },
                Err(_) => r matches Err(m) && m@ == enum_placeholder_error(),
            },
    {
        let cpf = match CommandParseFormat::try_from(cmd) {
            Ok(f) => f,
            Err(_) => {
                return Err(String::from_str("command string must have exactly one empty {}"));
            },
        };
        if cpf.number_placeholders() != 1 || !cpf.order.all_have_no_order() {
            return Err(String::from_str("command string must have exactly one empty {}"));
        }
        Ok(cpf)
    }

    /// The parsed command string of a struct with `numb_fields` fields: it must have one
    /// placeholder per field, and either all placeholders have an order or none has.
    pub fn try_new_struct(cmd: &str, numb_fields: usize) -> (r: Result<CommandParseFormat, String>)
        ensures
            match command_format(cmd@) {
                Ok((befores, orders, last)) => if orders.len() != numb_fields {
                    r matches Err(m) && m@ == field_count_error(
                        numb_fields as nat,
                        orders.len(),
                    )
                } else if mixed_order(orders) {
                    r matches Err(m) && m@ == mixed_order_error()
                } else {
                    r matches Ok(f) && f.command() == cmd@ && f.befores() == befores
                        && f.orders() == orders && f.after() == last
                },
                Err(e) => r matches Err(m) && m@ == e,
            },
    {
        let cpf = CommandParseFormat::try_from(cmd)?;
        let n = cpf.number_placeholders();
        if n != numb_fields {
            let mut m = String::from_str("struct has ");
            push_usize(&mut m, numb_fields);
            m.append(" field(s) but ");
            push_usize(&mut m, n);
            m.append(" placeholders were provided");
            return Err(m);
        }
        if cpf.order.has_mixed_order() {
            return Err(
                String::from_str(
                    "a mix of positional {0} and non positional {} placeholders is not allowed",
                ),
            );
        }
        Ok(cpf)
    }
}

} // verus!
