//! Command templates whose placeholders are all unordered (`{}`), all positional (`{P}`), or a
//! mix of both: formatting with one argument, the text around the placeholders, and the order in
//! which the fields of a struct fill the placeholders.
use vstd::prelude::*;

use std::collections::VecDeque;

use crate::cmd::{
    find_placeholder, lemma_placeholders_of_step, lemma_prepend_twice, mixed_order, next_part,
    parse_order_str, placeholders_of, prepend, NextPart,
};
use crate::delimited_parser::{
    ends_cleanly, joined, lemma_parse_fields_len, lemma_parse_joined, parse_fields, split_fields,
};
use crate::sort::{is_stable_argsort, stable_argsort};
use crate::text::{
    chars_of, find_in, lemma_first_occurrence_unique, replace, replace_all, split_once, string_of,
};

verus! {

/// A placeholder: the text before it and its order, if it has one.
#[derive(Debug)]
struct Placeholder {
    before: String,
    order: Option<usize>,
}

impl Placeholder {
    /// Check if the placeholder has a defined order.
    fn has_order(&self) -> (r: bool)
        ensures
            r == self.order is Some,
    {
        self.order.is_some()
    }
}

/// A command template, for formatting and for the order of the fields.
#[derive(Debug)]
pub struct CommandParseFormat {
    command: String,
    placeholders: Vec<Placeholder>,
    end_of_command: String,
}

/// The outcome of looking for the next placeholder.
#[derive(Debug)]
enum ParseReturn {
    /// The rest of the command after a placeholder.
    Before(String),
    /// No more placeholders: the rest of the command.
    Last(String),
}

impl ParseReturn {
    fn is_last(&self) -> (r: bool)
        ensures
            r == self is Last,
    {
        matches!(self, ParseReturn::Last(_))
    }

    fn inner(&self) -> (r: &str)
        ensures
            r@ == match self {
                ParseReturn::Before(i) => i@,
                ParseReturn::Last(i) => i@,
            },
    {
        match self {
            ParseReturn::Before(i) => i.as_str(),
            ParseReturn::Last(i) => i.as_str(),
        }
    }
}

impl CommandParseFormat {
    /// The command string.
    pub closed spec fn command(&self) -> Seq<char> {
        self.command@
    }

    /// The text before each placeholder.
    pub closed spec fn befores(&self) -> Seq<Seq<char>> {
        self.placeholders@.map_values(|p: Placeholder| p.before@)
    }

    /// The order of each placeholder.
    pub closed spec fn orders(&self) -> Seq<Option<usize>> {
        self.placeholders@.map_values(|p: Placeholder| p.order)
    }

    /// The text after the last placeholder.
    pub closed spec fn end(&self) -> Seq<char> {
        self.end_of_command@
    }

    /// Parse a command template; a command without placeholders is accepted.
    ///
    /// Error:
    /// - A placeholder holds something else than a number.
    pub fn try_from(value: &str) -> (r: Result<CommandParseFormat, String>)
        ensures
            match placeholders_of(value@) {
                Ok((befores, orders, last)) => r matches Ok(f) && f.command() == value@
                    && f.befores() == befores && f.orders() == orders && f.end() == last,
                Err(e) => r matches Err(m) && m@ == e,
            },
    {
        let mut ph = CommandParseFormat {
            command: string_of(&chars_of(value)),
            placeholders: Vec::new(),
            end_of_command: String::new(),
        };
        let mut sp = ParseReturn::Before(ph.command.clone());
        while !sp.is_last()
            invariant
                ph.command@ == value@,
                sp is Before ==> placeholders_of(value@) == prepend(
                    ph.befores(),
                    ph.orders(),
                    placeholders_of(sp->Before_0@),
                ),
                sp is Last ==> placeholders_of(value@) == prepend(
                    ph.befores(),
                    ph.orders(),
                    Ok((Seq::empty(), Seq::empty(), sp->Last_0@)),
                ),
            decreases (if sp is Before { sp->Before_0@.len() + 1 } else { 0 }),
        {
            proof {
                lemma_placeholders_of_step(sp->Before_0@);
            }
            let ghost bs0 = ph.befores();
            let ghost os0 = ph.orders();
            let ghost rem = sp->Before_0@;
            let next = ph.parse_next(sp.inner())?;
            proof {
                match next_part(rem) {
                    Ok(NextPart::Placeholder(b, o, rest)) => {
                        lemma_prepend_twice(bs0, os0, seq![b], seq![o], placeholders_of(rest));
                    },
                    _ => {},
                }
            }
            sp = next;
        }
        if let ParseReturn::Last(end) = sp {
            ph.end_of_command = end;
        }
        Ok(ph)
    }

    /// Parse the next placeholder of `s`, record it, and return the rest of the command.
    fn parse_next(&mut self, s: &str) -> (r: Result<ParseReturn, String>)
        ensures
            final(self).command() == old(self).command(),
            final(self).end() == old(self).end(),
            match next_part(s@) {
                Err(e) => r matches Err(m) && m@ == e,
                Ok(NextPart::Last(last)) => r matches Ok(ParseReturn::Last(l)) && l@ == last
                    && final(self).befores() == old(self).befores() && final(self).orders()
                    == old(self).orders(),
                Ok(NextPart::Placeholder(before, order, rest)) => r matches Ok(
                    ParseReturn::Before(b),
                ) && b@ == rest && final(self).befores() == old(self).befores().push(before)
                    && final(self).orders() == old(self).orders().push(order),
            },
    {
        proof {
            reveal(crate::cmd::next_placeholder);
        }
        let chars = chars_of(s);
        match find_placeholder(&chars) {
            None => Ok(ParseReturn::Last(string_of(&chars))),
            Some((a, b)) => {
                let order_str = string_of(&chars.as_slice()[a + 1..b]);
                let order = parse_order_str(order_str.as_str())?;
                let before = string_of(&chars.as_slice()[0..a]);
                self.placeholders.push(Placeholder { before, order });
                proof {
                    assert(self.befores() =~= old(self).befores().push(
                        s@.take(a as int),
                    ));
                }
                Ok(ParseReturn::Before(string_of(&chars.as_slice()[b + 1..chars.len()])))
            },
        }
    }

    /// Check whether all placeholders have an order.
    pub fn all_have_order(&self) -> (r: bool)
        ensures
            r == forall|i: int| 0 <= i < self.orders().len() ==> (#[trigger] self.orders()[i]) is Some,
    {
        let mut i: usize = 0;
        while i < self.placeholders.len()
            invariant
                i <= self.placeholders@.len(),
                forall|j: int| 0 <= j < i ==> (#[trigger] self.orders()[j]) is Some,
            decreases self.placeholders@.len() - i,
        {
            if !self.placeholders[i].has_order() {
                assert(self.orders()[i as int] == self.placeholders@[i as int].order);
                return false;
            }
            i += 1;
        }
        true
    }

    /// Check whether no placeholder has an order.
    pub fn all_have_no_order(&self) -> (r: bool)
        ensures
            r == forall|i: int| 0 <= i < self.orders().len() ==> (#[trigger] self.orders()[i]) is None,
    {
        let mut i: usize = 0;
        while i < self.placeholders.len()
            invariant
                i <= self.placeholders@.len(),
                forall|j: int| 0 <= j < i ==> (#[trigger] self.orders()[j]) is None,
            decreases self.placeholders@.len() - i,
        {
            if self.placeholders[i].has_order() {
                assert(self.orders()[i as int] == self.placeholders@[i as int].order);
                return false;
            }
            i += 1;
        }
        true
    }

    /// Check whether some placeholders have an order and others do not.
    pub fn have_mixed_order(&self) -> (r: bool)
        ensures
            r == mixed_order(self.orders()),
    {
        !self.all_have_order() && !self.all_have_no_order()
    }

    /// The text after the last placeholder.
    pub fn end_of_command(&self) -> (r: &str)
        ensures
            r@ == self.end(),
    {
        self.end_of_command.as_str()
    }

    /// Get the number of placeholders.
    pub fn number_placeholders(&self) -> (r: usize)
        ensures
            r == self.orders().len(),
    {
        self.placeholders.len()
    }

    /// The text between the placeholders, including the text before the first one and the text
    /// after the last one.
    pub fn get_in_betweens(&self) -> (r: Vec<&str>)
        ensures
            r@.map_values(|t: &str| t@) == self.befores().push(self.end()),
    {
        let mut acc: Vec<&str> = Vec::new();
        let mut i: usize = 0;
        while i < self.placeholders.len()
            invariant
                i <= self.placeholders@.len(),
                acc@.map_values(|t: &str| t@) =~= self.befores().take(i as int),
            decreases self.placeholders@.len() - i,
        {
            let ghost prev = acc@;
            let b = self.placeholders[i].before.as_str();
            acc.push(b);
            assert(acc@.map_values(|t: &str| t@) =~= prev.map_values(|t: &str| t@).push(b@));
            i += 1;
        }
        let e = self.end_of_command.as_str();
        acc.push(e);
        assert(self.befores().take(self.placeholders@.len() as int) =~= self.befores());
        acc
    }

    /// Replace the `{}` in the command string with `s`.
    ///
    /// This is meant for enums, whose command has exactly one empty placeholder `{}`.
    ///
    /// Error:
    /// - The number of placeholders is not one.
    /// - The placeholder has an order.
    pub fn format_with_one(&self, s: &str) -> (r: Result<String, String>)
        ensures
            self.orders().len() != 1 ==> (r matches Err(m) && m@
                == "number of {} placeholders in formatting string must be equal to one"@),
            self.orders().len() == 1 && self.orders()[0] is Some ==> (r matches Err(m) && m@
                == "the command string has order and thus cannot be formatted in this way."@),
            self.orders().len() == 1 && self.orders()[0] is None ==> (r matches Ok(t) && t@
                == replace_all(self.command(), seq!['{', '}'], s@)),
    {
        if self.number_placeholders() != 1 {
            return Err(
                String::from_str("number of {} placeholders in formatting string must be equal to one"),
            );
        }
        if !self.all_have_no_order() {
            return Err(
                String::from_str(
                    "the command string has order and thus cannot be formatted in this way.",
                ),
            );
        }
        let cmd = chars_of(self.command.as_str());
        let rep = chars_of(s);
        let pat = vec!['{', '}'];
        let out = replace(&cmd, &pat, &rep);
        Ok(string_of(&out))
    }

    /// The index of the field that fills each placeholder (see `field_order`).
    pub fn get_order(&self) -> (r: Vec<usize>)
        ensures
            r@ == field_order(self.orders()),
            r@.len() == self.orders().len(),
    {
        let n = self.placeholders.len();
        let ghost orders = self.orders();
        let mut new_order: Vec<usize> = Vec::new();
        let mut i: usize = 0;
        while i < n
            invariant
                n == orders.len(),
                i <= n,
                new_order@ =~= Seq::new(i as nat, |j: int| j as usize),
            decreases n - i,
        {
            new_order.push(i);
            i += 1;
        }
        if self.all_have_no_order() {
            return new_order;
        }
        // First pass: put the given orders in place.
        let mut orders_in_placeholder: Vec<usize> = Vec::new();
        let mut tmp: VecDeque<usize> = VecDeque::new();
        let mut k: usize = 0;
        while k < n
            invariant
                n == orders.len(),
                orders == self.orders(),
                k <= n,
                new_order@.len() == n,
                forall|j: int| 0 <= j < k ==> new_order@[j] == first_pass(orders)[j],
                forall|j: int| k <= j < n ==> new_order@[j] == j,
                tmp@ == displaced(orders.take(k as int)),
                orders_in_placeholder@ == given_orders(orders.take(k as int)),
            decreases n - k,
        {
            proof {
                assert(orders.take(k + 1).drop_last() =~= orders.take(k as int));
            }
            let current = new_order[k];
            if let Some(ph_order) = self.placeholders[k].order {
                orders_in_placeholder.push(ph_order);
                if ph_order != current {
                    tmp.push_back(current);
                }
                new_order.set(k, ph_order);
            }
            k += 1;
        }
        proof {
            assert(orders.take(n as int) =~= orders);
            assert(new_order@ =~= first_pass(orders));
        }
        // All were replaced.
        if new_order.len() == tmp.len() {
            return new_order;
        }
        // Second pass: fill the placeholders without order with the displaced indexes.
        let ghost given = given_orders(orders);
        let mut m: usize = 0;
        while m < n
            invariant
                n == orders.len(),
                orders == self.orders(),
                m <= n,
                new_order@.len() == n,
                orders_in_placeholder@ == given,
                second_pass(orders, given, first_pass(orders), displaced(orders), 0) == second_pass(
                    orders,
                    given,
                    new_order@,
                    tmp@,
                    m as nat,
                ),
                forall|j: int| m <= j < n ==> new_order@[j] == first_pass(orders)[j],
            decreases n - m,
        {
            let ghost q = tmp@;
            if self.placeholders[m].order.is_none() && tmp.len() > 0 {
                let current = new_order[m];
                let first = match tmp.pop_front() {
                    Some(f) => f,
                    None => 0,
                };
                if current >= first || contains(&orders_in_placeholder, current) {
                    new_order.set(m, first);
                } else {
                    tmp.push_front(first);
                    assert(tmp@ =~= q);
                }
            }
            m += 1;
        }
        new_order
    }
}

fn contains(v: &Vec<usize>, x: usize) -> (r: bool)
    ensures
        r == v@.contains(x),
{
    let mut i: usize = 0;
    while i < v.len()
        invariant
            i <= v@.len(),
            forall|j: int| 0 <= j < i ==> v@[j] != x,
        decreases v@.len() - i,
    {
        if v[i] == x {
            return true;
        }
        i += 1;
    }
    false
}

/// The order after the first pass: a placeholder with an order takes it, one without keeps its
/// own index.
pub open spec fn first_pass(orders: Seq<Option<usize>>) -> Seq<usize> {
    Seq::new(
        orders.len(),
        |i: int|
            match orders[i] {
                Some(o) => o,
                None => i as usize,
            },
    )
}

/// The indexes of the placeholders whose order differs from their index, in order.
pub open spec fn displaced(orders: Seq<Option<usize>>) -> Seq<usize>
    decreases orders.len(),
{
    if orders.len() == 0 {
        Seq::empty()
    } else {
        let k = orders.len() - 1;
        displaced(orders.drop_last()) + if orders.last() is Some && orders.last()->0 != k {
            seq![k as usize]
        } else {
            Seq::empty()
        }
    }
}

/// The orders that the placeholders give, in order.
pub open spec fn given_orders(orders: Seq<Option<usize>>) -> Seq<usize>
    decreases orders.len(),
{
    if orders.len() == 0 {
        Seq::empty()
    } else {
        given_orders(orders.drop_last()) + match orders.last() {
            Some(o) => seq![o],
            None => Seq::empty(),
        }
    }
}

/// The second pass, from placeholder `i` on: a placeholder without order takes the first of the
/// displaced indexes in `queue` if its own index is not smaller than that one or is given as an
/// order elsewhere.
pub open spec fn second_pass(
    orders: Seq<Option<usize>>,
    given: Seq<usize>,
    new: Seq<usize>,
    queue: Seq<usize>,
    i: nat,
) -> Seq<usize>
    decreases orders.len() - i,
{
    if i >= orders.len() {
        new
    } else if orders[i as int] is None && queue.len() > 0 {
        let first = queue[0];
        if new[i as int] >= first || given.contains(new[i as int]) {
            second_pass(orders, given, new.update(i as int, first), queue.drop_first(), i + 1)
        } else {
            second_pass(orders, given, new, queue, i + 1)
        }
    } else {
        second_pass(orders, given, new, queue, i + 1)
    }
}

/// The index of the field that fills each placeholder: the positions `0..n` if no placeholder
/// has an order; otherwise the given orders, and the placeholders without order filled with the
/// indexes that the given orders displaced.
pub open spec fn field_order(orders: Seq<Option<usize>>) -> Seq<usize> {
    if forall|i: int| 0 <= i < orders.len() ==> (#[trigger] orders[i]) is None {
        Seq::new(orders.len(), |i: int| i as usize)
    } else if displaced(orders).len() == orders.len() {
        first_pass(orders)
    } else {
        second_pass(orders, given_orders(orders), first_pass(orders), displaced(orders), 0)
    }
}

/// The second pass leaves the length alone, and every placeholder with an order as it was.
proof fn lemma_second_pass_keeps(
    orders: Seq<Option<usize>>,
    given: Seq<usize>,
    new: Seq<usize>,
    queue: Seq<usize>,
    i: nat,
)
    requires
        new.len() == orders.len(),
    ensures
        second_pass(orders, given, new, queue, i).len() == new.len(),
        forall|j: int|
            0 <= j < orders.len() && orders[j] is Some ==> #[trigger] second_pass(
                orders,
                given,
                new,
                queue,
                i,
            )[j] == new[j],
    decreases orders.len() - i,
{
    if i < orders.len() {
        if orders[i as int] is None && queue.len() > 0 {
            let first = queue[0];
            if new[i as int] >= first || given.contains(new[i as int]) {
                lemma_second_pass_keeps(
                    orders,
                    given,
                    new.update(i as int, first),
                    queue.drop_first(),
                    i + 1,
                );
            } else {
                lemma_second_pass_keeps(orders, given, new, queue, i + 1);
            }
        } else {
            lemma_second_pass_keeps(orders, given, new, queue, i + 1);
        }
    }
}

/// The field that fills a placeholder with an order is the one that the order names; if no
/// placeholder has an order, the fields fill the placeholders in turn.
pub proof fn field_order_keeps_given_orders(orders: Seq<Option<usize>>)
    ensures
        field_order(orders).len() == orders.len(),
        forall|i: int|
            0 <= i < orders.len() && orders[i] is Some ==> #[trigger] field_order(orders)[i]
                == orders[i]->0,
        (forall|i: int| 0 <= i < orders.len() ==> (#[trigger] orders[i]) is None) ==> forall|i: int|
            0 <= i < orders.len() ==> #[trigger] field_order(orders)[i] == i as usize,
{
    lemma_second_pass_keeps(orders, given_orders(orders), first_pass(orders), displaced(orders), 0);
}

/// The texts of an answer, as the derived `try_from_writable` of a struct with a command template
/// cuts them, where `pieces` are the texts around the placeholders (see `get_in_betweens`):
/// everything up to the first occurrence of the first piece is taken off, and the text of each
/// placeholder ends where the next piece begins (an empty piece ends nowhere: that placeholder
/// takes the whole rest, and leaves it). `None` where that code panics: a piece is missing.
pub open spec fn template_texts(pieces: Seq<Seq<char>>, val: Seq<char>) -> Option<Seq<Seq<char>>> {
    match split_once(val, pieces[0]) {
        None => None,
        Some((_, rest)) => parse_fields(rest, pieces.drop_first()),
    }
}

/// An answer written in the form of a template gives back its texts: the text in front of the
/// first placeholder, then each text followed by the text behind its placeholder, is cut into
/// those texts again, also when the template begins with a placeholder. Provided that some text
/// follows every placeholder but the last, and the text behind each placeholder first occurs
/// right after the text written there.
pub proof fn template_texts_round_trip(pieces: Seq<Seq<char>>, texts: Seq<Seq<char>>)
    requires
        pieces.len() == texts.len() + 1,
        forall|k: int| 1 <= k < pieces.len() - 1 ==> (#[trigger] pieces[k]).len() > 0,
        forall|k: int|
            0 <= k < texts.len() && (#[trigger] pieces[k + 1]).len() > 0 ==> ends_cleanly(
                texts[k],
                pieces[k + 1],
            ),
    ensures
        template_texts(pieces, pieces[0] + joined(texts, pieces.drop_first(), 0)) == Some(texts),
{
    let ends = pieces.drop_first();
    let rest = joined(texts, ends, 0);
    let val = pieces[0] + rest;
    assert forall|j: int| 0 <= j < texts.len() - 1 implies (#[trigger] ends[j]).len() > 0 by {
        assert(ends[j] == pieces[j + 1]);
    }
    assert forall|j: int|
        0 <= j < texts.len() && (#[trigger] ends[j]).len() > 0 implies ends_cleanly(
        texts[j],
        ends[j],
    ) by {
        assert(ends[j] == pieces[j + 1]);
    }
    assert(split_once(val, pieces[0]) == Some((val.take(0), rest))) by {
        assert(val.subrange(0, pieces[0].len() as int) =~= pieces[0]);
        lemma_first_occurrence_unique(val, pieces[0], 0);
        assert(val.skip(pieces[0].len() as int) =~= rest);
    }
    lemma_parse_joined(texts, ends, 0);
    assert(ends.skip(0) =~= ends);
    assert(texts.skip(0) =~= texts);
}

/// The smaller of `a` and `b`.
pub open spec fn smaller(a: int, b: int) -> int {
    if a < b {
        a
    } else {
        b
    }
}

/// The error of a command string for an enum that holds an ordered placeholder.
pub open spec fn ordered_enum_error() -> Seq<char> {
    "ordered placeholders are not allowed for enums"@
}

/// The error of a command string for an enum that has not exactly one empty placeholder.
pub open spec fn one_placeholder_error() -> Seq<char> {
    "command string must have exactly one empty {}"@
}

/// The error of a command string that mixes ordered and unordered placeholders.
pub open spec fn mixed_placeholders_error() -> Seq<char> {
    "a mix of positional, e.g., {0}, and non positional {} placeholder arguments is not allowed"@
}

/// The error of a struct whose number of fields differs from the number of placeholders.
pub open spec fn field_count_error() -> Seq<char> {
    "number of fields does not match number of placeholders"@
}

impl CommandParseFormat {
    /// The template of an enum, which must have exactly one empty placeholder `{}`.
    pub fn try_new_enum(cmd: &str) -> (r: Result<CommandParseFormat, String>)
        ensures
            match placeholders_of(cmd@) {
                Ok((befores, orders, last)) => if orders.len() == 1 && orders[0] is None {
                    r matches Ok(f) && f.command() == cmd@ && f.befores() == befores
                        && f.orders() == orders && f.end() == last
                } else {
                    r matches Err(m) && m@ == one_placeholder_error()
                },
                Err(_) => r matches Err(m) && m@ == ordered_enum_error(),
            },
    {
        let cpf = match CommandParseFormat::try_from(cmd) {
            Ok(f) => f,
            Err(_) => {
                return Err(String::from_str("ordered placeholders are not allowed for enums"));
            },
        };
        if cpf.number_placeholders() != 1 || !cpf.all_have_no_order() {
            return Err(String::from_str("command string must have exactly one empty {}"));
        }
        Ok(cpf)
    }

    /// The template of a struct: either all placeholders have an order or none has.
    pub fn try_new_struct(cmd: &str) -> (r: Result<CommandParseFormat, String>)
        ensures
            match placeholders_of(cmd@) {
                Ok((befores, orders, last)) => if mixed_order(orders) {
                    r matches Err(m) && m@ == mixed_placeholders_error()
                } else {
                    r matches Ok(f) && f.command() == cmd@ && f.befores() == befores
                        && f.orders() == orders && f.end() == last
                },
                Err(e) => r matches Err(m) && m@ == e,
            },
    {
        let cpf = CommandParseFormat::try_from(cmd)?;
        if cpf.have_mixed_order() {
            return Err(
                String::from_str(
                    "a mix of positional, e.g., {0}, and non positional {} placeholder arguments is not allowed",
                ),
            );
        }
        Ok(cpf)
    }

    /// The command string.
    pub fn get_command(&self) -> (r: &str)
        ensures
            r@ == self.command(),
    {
        self.command.as_str()
    }

    /// Cut the texts of a struct's `numb_fields` fields out of the answer `val`, as the derived
    /// `try_from_writable` of a struct with this template does: the texts, in the order of the
    /// placeholders, go to the fields sorted (stably) by the index that `get_order` gives them.
    /// The result holds the text of each field, in the order of the fields, for as many fields as
    /// there are both fields and placeholders.
    ///
    /// `None` where the derived implementation panics (see `template_texts`).
    pub fn read_fields(&self, val: &str, numb_fields: usize) -> (r: Option<Vec<String>>)
        ensures
            template_texts(self.befores().push(self.end()), val@) is None ==> r is None,
            template_texts(self.befores().push(self.end()), val@) matches Some(texts) ==> (r matches Some(
                v,
            ) && v@.len() == smaller(numb_fields as int, self.orders().len() as int) && exists|
                perm: Seq<usize>,
            |
                is_stable_argsort(
                    field_order(self.orders()).take(smaller(numb_fields as int, self.orders().len() as int)),
                    perm,
                ) && forall|j: int|
                    0 <= j < v@.len() ==> (#[trigger] v@[perm[j] as int])@ == texts[j]),
    {
        let pieces = self.get_in_betweens();
        let ghost pv = pieces@.map_values(|t: &str| t@);
        let chars = chars_of(val);
        let first = chars_of(pieces[0]);
        assert(chars@.subrange(0, chars@.len() as int) =~= val@);
        let start = match find_in(&chars, 0, chars.len(), &first) {
            Some(i) => {
                assert(chars@.subrange(i + first.len(), chars@.len() as int) =~= val@.skip(
                    i + first@.len(),
                ));
                i + first.len()
            },
            None => {
                return None;
            },
        };
        let mut ends: Vec<String> = Vec::new();
        let mut k: usize = 1;
        while k < pieces.len()
            invariant
                1 <= k <= pieces@.len(),
                pv == pieces@.map_values(|t: &str| t@),
                ends.deep_view() =~= pv.subrange(1, k as int),
            decreases pieces@.len() - k,
        {
            let ghost prev = ends.deep_view();
            ends.push(pieces[k].to_owned());
            assert(ends.deep_view() =~= prev.push(pv[k as int]));
            k += 1;
        }
        assert(ends.deep_view() =~= pv.drop_first());
        let texts = match split_fields(&chars, start, chars.len(), &ends) {
            Some(t) => t,
            None => {
                return None;
            },
        };
        proof {
            lemma_parse_fields_len(chars@.subrange(start as int, chars@.len() as int), ends.deep_view());
        }
        let order = self.get_order();
        let m = if numb_fields < order.len() {
            numb_fields
        } else {
            order.len()
        };
        assert(m <= order@.len());
        let perm = stable_argsort(&order.as_slice()[0..m]);
        assert(order@.subrange(0, m as int) =~= field_order(self.orders()).take(m as int));
        let ghost tv = texts.deep_view();
        assert(tv.len() == self.orders().len());
        let mut out: Vec<String> = Vec::new();
        let mut i: usize = 0;
        while i < m
            invariant
                i <= m,
                out@.len() == i,
            decreases m - i,
        {
            out.push(String::new());
            i += 1;
        }
        let mut j: usize = 0;
        while j < m
            invariant
                m <= tv.len(),
                m <= order@.len(),
                tv == texts.deep_view(),
                is_stable_argsort(order@.subrange(0, m as int), perm@),
                out@.len() == m,
                j <= m,
                forall|l: int| 0 <= l < j ==> (#[trigger] out@[perm@[l] as int])@ == tv[l],
            decreases m - j,
        {
            assert(perm@[j as int] < m);
            out.set(perm[j], texts[j].clone());
            assert forall|l: int| 0 <= l < j + 1 implies (#[trigger] out@[perm@[l] as int])@ == tv[l] by {
                if l < j {
                    assert(perm@[l] != perm@[j as int]);
                }
            }
            j += 1;
        }
        assert(is_stable_argsort(
            field_order(self.orders()).take(smaller(numb_fields as int, self.orders().len() as int)),
            perm@,
        ));
        Some(out)
    }

    /// Check that a struct with `numb_fields` fields has one field per placeholder.
    pub fn check_field_count(&self, numb_fields: usize) -> (r: Result<(), String>)
        ensures
            r is Ok <==> numb_fields == self.orders().len(),
            r matches Err(m) ==> m@ == field_count_error(),
    {
        if numb_fields != self.number_placeholders() {
            return Err(String::from_str("number of fields does not match number of placeholders"));
        }
        Ok(())
    }
}

} // verus!
