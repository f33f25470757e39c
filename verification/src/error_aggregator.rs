//! Gathering the errors found while deriving an implementation, to report them all at once.
use vstd::prelude::*;

use proc_macro2::TokenStream;

verus! {

#[verifier::external_type_specification]
#[verifier::external_body]
pub struct ExSynError(syn::Error);

#[verifier::external_type_specification]
#[verifier::external_body]
pub struct ExTokenStream(proc_macro2::TokenStream);

/// The texts of the messages that an error holds, in order.
pub uninterp spec fn error_messages(e: syn::Error) -> Seq<Seq<char>>;

/// `syn::Error::combine`: appends the messages of `another` to those of `err`.
#[verifier::external_body]
fn combine(err: &mut syn::Error, another: syn::Error)
    ensures
        error_messages(*final(err)) == error_messages(*old(err)) + error_messages(another),
{
    err.combine(another)
}

/// The messages of all the errors, one error after the other.
pub open spec fn all_messages(errors: Seq<syn::Error>) -> Seq<Seq<char>>
    decreases errors.len(),
{
    if errors.len() == 0 {
        Seq::empty()
    } else {
        all_messages(errors.drop_last()) + error_messages(errors.last())
    }
}

proof fn lemma_all_messages_front(errors: Seq<syn::Error>)
    requires
        errors.len() > 0,
    ensures
        all_messages(errors) == error_messages(errors[0]) + all_messages(errors.drop_first()),
    decreases errors.len(),
{
    let dl = errors.drop_last();
    let df = errors.drop_first();
    assert(all_messages(errors) == all_messages(dl) + error_messages(errors.last()));
    if errors.len() == 1 {
        assert(all_messages(dl) == Seq::<Seq<char>>::empty());
        assert(all_messages(df) == Seq::<Seq<char>>::empty());
        assert(errors.last() == errors[0]);
        assert(Seq::<Seq<char>>::empty() + error_messages(errors[0]) =~= error_messages(errors[0])
            + Seq::<Seq<char>>::empty());
    } else {
        lemma_all_messages_front(dl);
        assert(dl[0] == errors[0]);
        assert(dl.drop_first() =~= df.drop_last());
        assert(df.last() == errors.last());
        assert(all_messages(df) == all_messages(df.drop_last()) + error_messages(df.last()));
        assert(error_messages(errors[0]) + all_messages(df.drop_last()) + error_messages(
            errors.last(),
        ) =~= error_messages(errors[0]) + (all_messages(df.drop_last()) + error_messages(
            errors.last(),
        )));
    }
}

/// The errors found so far.
pub struct ErrorAggregator {
    errors: Vec<syn::Error>,
}

impl ErrorAggregator {
    /// The errors found so far, in the order in which they were found.
    pub closed spec fn errors(&self) -> Seq<syn::Error> {
        self.errors@
    }

    /// No errors yet.
    pub fn new() -> (r: ErrorAggregator)
        ensures
            r.errors() == Seq::<syn::Error>::empty(),
    {
        ErrorAggregator { errors: Vec::new() }
    }

    /// Add an error.
    pub fn push(&mut self, err: syn::Error)
        ensures
            final(self).errors() == old(self).errors().push(err),
    {
        self.errors.push(err);
    }

    /// `ok` if no error was found; otherwise the first error, combined with all the others in
    /// the order in which they were found: it holds all their messages, in that order.
    pub fn get_result(self, ok: TokenStream) -> (r: Result<TokenStream, syn::Error>)
        ensures
            self.errors().len() == 0 ==> r == Ok::<TokenStream, syn::Error>(ok),
            self.errors().len() > 0 ==> (r matches Err(e) && error_messages(e) == all_messages(
                self.errors(),
            )),
    {
        let ghost all = self.errors@;
        let mut errors = self.errors;
        if errors.len() == 0 {
            return Ok(ok);
        }
        proof {
            lemma_all_messages_front(all);
        }
        let mut aggregated = errors.remove(0);
        while errors.len() > 0
            invariant
                error_messages(aggregated) + all_messages(errors@) == all_messages(all),
            decreases errors@.len(),
        {
            let ghost before = errors@;
            proof {
                lemma_all_messages_front(before);
            }
            let e = errors.remove(0);
            assert(errors@ =~= before.drop_first());
            let ghost agg = aggregated;
            combine(&mut aggregated, e);
            assert(error_messages(agg) + (error_messages(e) + all_messages(errors@))
                =~= error_messages(aggregated) + all_messages(errors@));
        }
        assert(all_messages(errors@) == Seq::<Seq<char>>::empty());
        assert(error_messages(aggregated) + Seq::<Seq<char>>::empty() =~= error_messages(
            aggregated,
        ));
        Err(aggregated)
    }
}

} // verus!
