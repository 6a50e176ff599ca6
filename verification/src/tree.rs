//! Fetching a recipe together with what it builds on.
//!
//! The walk starts from one recipe and goes on to the recipes that it
//! depends on, those that they depend on, and so on. Each recipe is fetched
//! once, however often it is depended on, so that a walk ends even where
//! recipes depend on each other in a circle. The walk decides what to fetch
//! next; the caller fetches it and hands the record back.

use crate::fetch::{is_known, known};
use crate::gateway::{recipe_get, recipe_get_request, Request};
use crate::models::{views, DependencyView, Recipe, RecipeView};
use vstd::prelude::*;

verus! {

/// A walk over a recipe and what it builds on.
#[derive(Debug)]
pub struct TreeWalk {
    /// The recipes fetched so far, the one that the walk started from first.
    pub tree: Vec<Recipe>,
    /// The identifiers still to look at; the last one comes next.
    pub pending: Vec<String>,
}

/// What a walk holds.
pub struct TreeWalkView {
    pub tree: Seq<RecipeView>,
    pub pending: Seq<Seq<char>>,
}

impl View for TreeWalk {
    type V = TreeWalkView;

    open spec fn view(&self) -> TreeWalkView {
        TreeWalkView { tree: views(self.tree@), pending: views(self.pending@) }
    }
}

/// One of the recipes has the identifier `id`.
pub open spec fn fetched(tree: Seq<RecipeView>, id: Seq<char>) -> bool {
    exists|k: int| 0 <= k < tree.len() && (#[trigger] tree[k]).id == id
}

/// What is left to look at once the identifiers at the end that are
/// fetched already are set aside.
pub open spec fn unfetched(tree: Seq<RecipeView>, pending: Seq<Seq<char>>) -> Seq<Seq<char>>
    decreases pending.len(),
{
    if pending.len() == 0 {
        pending
    } else if fetched(tree, pending.last()) {
        unfetched(tree, pending.drop_last())
    } else {
        pending
    }
}

/// The identifiers of the recipes that a list of dependencies names, the
/// last one first.
pub open spec fn backwards(dependencies: Seq<DependencyView>) -> Seq<Seq<char>> {
    Seq::new(
        dependencies.len(),
        |i: int| dependencies[dependencies.len() - 1 - i].recipe.id,
    )
}

impl TreeWalk {
    /// A walk that starts from the recipe `id`.
    pub fn new(id: &str) -> (walk: TreeWalk)
        ensures
            walk@ == (TreeWalkView { tree: Seq::empty(), pending: seq![id@] }),
    {
        let mut pending: Vec<String> = Vec::new();
        pending.push(id.to_owned());
        let walk = TreeWalk { tree: Vec::new(), pending };
        assert(walk@.tree =~= Seq::empty());
        assert(walk@.pending =~= seq![id@]);
        walk
    }

    /// The request for the next recipe to fetch, or nothing when the walk
    /// is over. Identifiers of recipes that are fetched already are set
    /// aside; the first that is not is taken from the list and asked for.
    pub fn next(&mut self, origin: &str) -> (request: Option<Request>)
        ensures
            final(self)@.tree == old(self)@.tree,
            match request {
                Some(request) => {
                    let rest = unfetched(old(self)@.tree, old(self)@.pending);
                    &&& rest.len() > 0
                    &&& request@ == recipe_get_request(origin@, rest.last())
                    &&& final(self)@.pending == rest.drop_last()
                },
                None => {
                    &&& unfetched(old(self)@.tree, old(self)@.pending).len() == 0
                    &&& final(self)@.pending.len() == 0
                },
            },
    {
        let ghost tree = self@.tree;
        let ghost start = self@.pending;
        while self.pending.len() > 0
            invariant
                tree == old(self)@.tree,
                start == old(self)@.pending,
                self@.tree == tree,
                unfetched(tree, self@.pending) == unfetched(tree, start),
            decreases self.pending.len(),
        {
            let ghost now = self@.pending;
            let id = self.pending.pop().unwrap();
            proof {
                assert(self@.pending =~= now.drop_last());
                assert(id@ == now.last());
                assert(known(self.tree@, id@) <==> fetched(tree, id@)) by {
                    if known(self.tree@, id@) {
                        let k = choose|k: int|
                            0 <= k < self.tree.len() && (#[trigger] self.tree@[k]).id@ == id@;
                        assert(tree[k].id == id@);
                    }
                    if fetched(tree, id@) {
                        let k = choose|k: int|
                            0 <= k < tree.len() && (#[trigger] tree[k]).id == id@;
                        assert(self.tree@[k].id@ == id@);
                    }
                }
            }
            if !is_known(&self.tree, id.as_str()) {
                assert(unfetched(tree, now) == now);
                return Some(recipe_get(origin, id.as_str()));
            }
        }
        None
    }

    /// Takes a recipe that was fetched into the walk: it joins the tree,
    /// and what it depends on is put on the list, its first dependency to
    /// be looked at first.
    pub fn add(&mut self, recipe: Recipe)
        ensures
            final(self)@.tree == old(self)@.tree.push(recipe@),
            final(self)@.pending == old(self)@.pending + backwards(recipe@.dependencies),
    {
        let ghost start = self@.pending;
        let ghost all = recipe@.dependencies;
        let mut i: usize = recipe.dependencies.len();
        while i > 0
            invariant
                i <= recipe.dependencies.len(),
                all == recipe@.dependencies,
                self@.tree == old(self)@.tree,
                self@.pending == start + backwards(all).take(all.len() - i),
            decreases i,
        {
            let ghost before = self@.pending;
            i -= 1;
            self.pending.push(recipe.dependencies[i].recipe.id.clone());
            proof {
                assert(all[i as int] == recipe.dependencies[i as int]@);
                assert(self@.pending =~= before.push(all[i as int].recipe.id));
                assert(backwards(all).take(all.len() - i) =~= backwards(all).take(
                    all.len() - i - 1,
                ).push(all[i as int].recipe.id));
            }
        }
        assert(backwards(all).take(all.len() as int) =~= backwards(all));
        let ghost grown = old(self)@.tree;
        self.tree.push(recipe);
        assert(self@.tree =~= grown.push(recipe@));
    }
}

} // verus!
