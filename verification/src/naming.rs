//! The names under which the variants of an enum are bound when its
//! patterns are matched.

use vstd::prelude::*;

verus! {

/// The snake-case form that `heck` gives to a name.
pub uninterp spec fn snake_case_of(name: Seq<char>) -> Seq<char>;

/// `heck::SnakeCase::to_snake_case` on a string: the words of `name` in
/// lower case, joined by underscores. The conversion reads nothing but its
/// argument, so its result is named by [`snake_case_of`]; what the words of
/// a name are is left to `heck`.
#[verifier::external_body]
fn to_snake_case(name: &str) -> (snake: String)
    ensures
        snake@ == snake_case_of(name@),
{
    heck::SnakeCase::to_snake_case(name)
}

/// `syn::parse_str::<syn::Ident>`: whether `text` is read as one plain
/// identifier. Nothing is claimed of the answer: which words are reserved
/// is the parser's business.
#[verifier::external_body]
fn parses_as_ident(text: &str) -> (plain: bool) {
    syn::parse_str::<syn::Ident>(text).is_ok()
}

/// `binding` is a name under which the variant called `name` can be bound:
/// its snake-case form, as it is or marked as a raw identifier.
pub open spec fn is_binding_for(binding: Seq<char>, name: Seq<char>) -> bool {
    binding == snake_case_of(name) || binding == "r#"@ + snake_case_of(name)
}

/// The identifier to bind under, given a snake-case name and whether it
/// can stand as a plain identifier: the name itself if it can, the raw
/// identifier of that name if it cannot.
pub fn binding_name(snake: String, plain: bool) -> (binding: String)
    ensures
        binding@ == (if plain {
            snake@
        } else {
            "r#"@ + snake@
        }),
{
    if plain {
        snake
    } else {
        let mut raw = "r#".to_owned();
        raw.append(snake.as_str());
        raw
    }
}

/// The identifier under which the variant called `name` is bound: its
/// snake-case form, made a raw identifier where the plain one is a
/// reserved word.
pub fn arm_binding(name: &str) -> (binding: String)
    ensures
        is_binding_for(binding@, name@),
{
    let snake = to_snake_case(name);
    let plain = parses_as_ident(snake.as_str());
    binding_name(snake, plain)
}

} // verus!
