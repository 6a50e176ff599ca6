//! Client-side logic for a remote recipe service: the wire protocol, the
//! resolution of user clues, and the maintenance runs that replay, export,
//! prune and merge the recipe graph.
//!
//! Nothing in this crate performs I/O. A caller sends the requests that the
//! crate describes and hands the answers back; the crate decides what they
//! mean and what to do next.

pub mod actions;
pub mod clean;
pub mod display;
pub mod dump;
pub mod fetch;
pub mod gateway;
pub mod identify;
pub mod merge;
pub mod migration;
pub mod models;
pub mod order;
pub mod tables;
pub mod text;
pub mod tiers;
pub mod tree;

pub use crate::gateway::{
    dependency_create, dependency_delete, dependency_edit, ingredient_create, ingredient_delete,
    ingredient_get, ingredient_index, ingredient_update, label_create, label_delete, label_get,
    label_index, label_update, recipe_create, recipe_delete, recipe_get, recipe_get_requirements,
    recipe_index, recipe_tag, recipe_untag, recipe_update, requirement_create, requirement_delete,
    requirement_update,
};
