use proc_macro2::{Span, TokenStream};
use quote::ToTokens;

use instrumentrs::error_aggregator::ErrorAggregator;

fn tokens() -> TokenStream {
    let ident = proc_macro2::Ident::new("value", Span::call_site());
    ident.into_token_stream()
}

#[test]
fn no_errors_gives_the_value() {
    let agg = ErrorAggregator::new();
    let r = agg.get_result(tokens());
    assert_eq!(r.unwrap().to_string(), "value");
}

#[test]
fn errors_are_combined_in_order() {
    let mut agg = ErrorAggregator::new();
    agg.push(syn::Error::new(Span::call_site(), "first"));
    agg.push(syn::Error::new(Span::call_site(), "second"));
    let err = agg.get_result(tokens()).unwrap_err();
    let msgs: Vec<String> = err.into_iter().map(|e| e.to_string()).collect();
    assert_eq!(msgs, vec!["first".to_string(), "second".to_string()]);
}
