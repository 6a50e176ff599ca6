//! What the command line shows: wordings and the layout of listings.

use crate::gateway::{GatewayError, GatewayErrorView};
use crate::models::{record_names, views, Classifications, IngredientIndex, RecipeIndex, Record};
use crate::order::{
    listing_keys, listing_sort_key, sort_listing, sorted_by_key, unidecoded,
};
use crate::text::{decimal, push_decimal};
use vstd::prelude::*;
use vstd::string::StringExecFns;
use vstd::string::StringSliceAdditionalSpecFns;
use vstd::utf8::encode_utf8;

verus! {

/// The term for `named` if `present`, and nothing otherwise.
pub open spec fn term_if(present: bool, named: Seq<char>) -> Seq<Seq<char>> {
    if present {
        seq![named]
    } else {
        Seq::empty()
    }
}

/// The terms that describe what an ingredient or a recipe contains: animal
/// products (said only where meat is not), meat, dairy, gluten, in that
/// order.
pub open spec fn classification_terms(class: Classifications) -> Seq<Seq<char>> {
    term_if(class.animal_product && !class.meat, "produits d'origine animale"@) + term_if(
        class.meat,
        "viande"@,
    ) + term_if(class.dairy, "produits laitiers"@) + term_if(class.gluten, "gluten"@)
}

/// The terms that describe what an ingredient or a recipe contains.
pub fn display_classifications(class: &Classifications) -> (terms: Vec<String>)
    ensures
        views(terms@) == classification_terms(*class),
{
    let mut terms: Vec<String> = Vec::new();
    if class.animal_product && !class.meat {
        terms.push(String::from_str("produits d'origine animale"));
    }
    if class.meat {
        terms.push(String::from_str("viande"));
    }
    if class.dairy {
        terms.push(String::from_str("produits laitiers"));
    }
    if class.gluten {
        terms.push(String::from_str("gluten"));
    }
    assert(views(terms@) =~= classification_terms(*class));
    terms
}

/// The largest of `lengths`, and 0 where there is none.
pub open spec fn largest(lengths: Seq<nat>) -> nat
    decreases lengths.len(),
{
    if lengths.len() == 0 {
        0
    } else if largest(lengths.drop_last()) >= lengths.last() {
        largest(lengths.drop_last())
    } else {
        lengths.last()
    }
}

/// The width of the name column of a listing: that of the longest entry, and
/// 10 for a listing without entries.
pub open spec fn column_width(lengths: Seq<nat>) -> nat {
    if lengths.len() == 0 {
        10
    } else {
        largest(lengths)
    }
}

/// How many bytes each name takes.
pub open spec fn byte_lengths(names: Seq<Seq<char>>) -> Seq<nat> {
    names.map_values(|name: Seq<char>| encode_utf8(name).len())
}

/// How many bytes the transliteration of each name takes.
pub open spec fn key_lengths(names: Seq<Seq<char>>) -> Seq<nat> {
    names.map_values(|name: Seq<char>| encode_utf8(unidecoded(name)).len())
}

/// A listing of ingredients: the entries in the order of their
/// transliterated names, entries that agree in it as they stand, and the
/// width of the name column, which is that of the longest name in bytes.
pub fn ingredient_list(ingredients: &Vec<IngredientIndex>) -> (listing: (
    Vec<IngredientIndex>,
    usize,
))
    ensures
        views(listing.0@) == sorted_by_key(views(ingredients@), listing_keys(ingredients@)),
        listing.1 == column_width(byte_lengths(record_names(ingredients@))),
{
    let rows = sort_listing(ingredients);
    let ghost lengths = byte_lengths(record_names(ingredients@));
    let mut width: usize = 0;
    let mut i: usize = 0;
    assert(lengths.take(0) =~= Seq::empty());
    while i < ingredients.len()
        invariant
            i <= ingredients.len(),
            lengths == byte_lengths(record_names(ingredients@)),
            width == largest(lengths.take(i as int)),
        decreases ingredients.len() - i,
    {
        proof {
            let next = lengths.take(i as int + 1);
            assert(next.drop_last() =~= lengths.take(i as int));
            assert(next.last() == encode_utf8(ingredients[i as int].name@).len());
        }
        let length = ingredients[i].name.as_str().as_bytes().len();
        if length > width {
            width = length;
        }
        i += 1;
    }
    assert(lengths.take(i as int) =~= lengths);
    if ingredients.len() == 0 {
        (rows, 10)
    } else {
        (rows, width)
    }
}

/// A listing of recipes: the entries in the order of their transliterated
/// names, entries that agree in it as they stand, and the width of the name
/// column, which is that of the longest transliterated name.
pub fn recipe_list(recipes: &Vec<RecipeIndex>) -> (listing: (Vec<RecipeIndex>, usize))
    ensures
        views(listing.0@) == sorted_by_key(views(recipes@), listing_keys(recipes@)),
        listing.1 == column_width(key_lengths(record_names(recipes@))),
{
    let rows = sort_listing(recipes);
    let ghost lengths = key_lengths(record_names(recipes@));
    let mut width: usize = 0;
    let mut i: usize = 0;
    assert(lengths.take(0) =~= Seq::empty());
    while i < recipes.len()
        invariant
            i <= recipes.len(),
            lengths == key_lengths(record_names(recipes@)),
            width == largest(lengths.take(i as int)),
        decreases recipes.len() - i,
    {
        proof {
            let next = lengths.take(i as int + 1);
            assert(next.drop_last() =~= lengths.take(i as int));
            assert(next.last() == encode_utf8(unidecoded(recipes[i as int].name@)).len());
        }
        let length = listing_sort_key(recipes[i].name.as_str()).key.len();
        if length > width {
            width = length;
        }
        i += 1;
    }
    assert(lengths.take(i as int) =~= lengths);
    if recipes.len() == 0 {
        (rows, 10)
    } else {
        (rows, width)
    }
}

/// The text that reports an error of the service.
pub open spec fn error_text(error: GatewayErrorView) -> Seq<char> {
    match error {
        GatewayErrorView::Server { status, error } => "Server returned an error: ["@ + decimal(
            status as nat,
        ) + "] "@ + error,
        GatewayErrorView::Unreadable => {
            "Internal error: Failed to interpret the server's response"@
        },
    }
}

impl GatewayError {
    /// The text that reports the error.
    pub fn describe(&self) -> (text: String)
        ensures
            text@ == error_text(self@),
    {
        match self {
            GatewayError::Server { status, error } => {
                let mut text = String::from_str("Server returned an error: [");
                push_decimal(&mut text, *status as u64);
                text.append("] ");
                text.append(error.as_str());
                text
            },
            GatewayError::Unreadable => String::from_str(
                "Internal error: Failed to interpret the server's response",
            ),
        }
    }
}

} // verus!
