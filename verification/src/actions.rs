//! The requests behind the editing commands.
//!
//! An editing command names its target by a clue, which is resolved first.
//! What the command then asks of the service is a single update that carries
//! the fields the user gave, and no others.

use crate::gateway::{
    given, ingredient_update, ingredient_update_request, label_update, label_update_request,
    recipe_update, recipe_update_request, Request,
};
use crate::models::{IngredientIndex, LabelIndex, RecipeIndex};
use vstd::prelude::*;
use vstd::string::StringExecFns;

verus! {

/// The text inside an owned text that may be absent.
pub open spec fn given_owned(value: Option<String>) -> Option<Seq<char>> {
    match value {
        Some(value) => Some(value@),
        None => None,
    }
}

fn borrowed(value: &Option<String>) -> (text: Option<&str>)
    ensures
        given(text) == given_owned(*value),
{
    match value {
        Some(value) => Some(value.as_str()),
        None => None,
    }
}

/// The update that edits a recipe: the name and the author, where given,
/// and the directions and the information, where the user rewrote them.
pub fn recipe_edit(
    origin: &str,
    recipe: &RecipeIndex,
    name: Option<&str>,
    author: Option<&str>,
    directions: &Option<String>,
    information: &Option<String>,
) -> (request: Request)
    ensures
        request@ == recipe_update_request(
            origin@,
            recipe.id@,
            given(name),
            given(author),
            given_owned(*directions),
            given_owned(*information),
        ),
{
    recipe_update(
        origin,
        recipe.id.as_str(),
        name,
        author,
        borrowed(directions),
        borrowed(information),
    )
}

/// The update that edits an ingredient: the name and the flags that are
/// given.
pub fn ingredient_edit(
    origin: &str,
    ingredient: &IngredientIndex,
    name: Option<&str>,
    dairy: Option<bool>,
    meat: Option<bool>,
    gluten: Option<bool>,
    animal_product: Option<bool>,
) -> (request: Request)
    ensures
        request@ == ingredient_update_request(
            origin@,
            ingredient.id@,
            given(name),
            dairy,
            meat,
            gluten,
            animal_product,
        ),
{
    ingredient_update(origin, ingredient.id.as_str(), name, dairy, meat, gluten, animal_product)
}

/// Why an edit cannot be asked for.
#[derive(Debug, PartialEq, Eq)]
pub enum EditError {
    /// A label has nothing to edit but its name, and none was given.
    MissingName,
}

/// The update that renames a label. Fails exactly where no name is given.
pub fn label_edit(origin: &str, label: &LabelIndex, name: Option<&str>) -> (outcome: Result<
    Request,
    EditError,
>)
    ensures
        match (name, outcome) {
            (Some(name), Ok(request)) => request@ == label_update_request(
                origin@,
                label.id@,
                name@,
            ),
            (None, Err(error)) => error == EditError::MissingName,
            _ => false,
        },
{
    match name {
        Some(name) => Ok(label_update(origin, label.id.as_str(), name)),
        None => Err(EditError::MissingName),
    }
}

/// The text that stands for a field that an answer leaves out.
pub fn none() -> (text: String)
    ensures
        text@ == "None"@,
{
    String::from_str("None")
}

} // verus!
