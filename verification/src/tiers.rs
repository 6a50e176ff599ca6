//! Layering a set of recipes by dependency.
//!
//! The first tier holds the recipes that depend on no recipe of the set.
//! Each further tier holds every recipe, not placed yet, all of whose
//! dependencies within the set are placed in earlier tiers. A dependency on a
//! recipe outside the set does not hold a recipe back. When recipes remain
//! and none of them can be placed, they depend on each other in a circle, and
//! the layering fails.

use crate::models::{views, Dependency, Recipe, RecipeView};
use crate::text::same_text;
use vstd::prelude::*;
use vstd::set_lib::{
    lemma_int_range, lemma_len_subset, lemma_set_disjoint_lens, lemma_subset_equality,
    set_int_range,
};

verus! {

/// Recipe `i` of the set depends on recipe `j` of the set: one of its
/// dependencies names the identifier of `j`.
pub open spec fn depends_on(recipes: Seq<RecipeView>, i: int, j: int) -> bool {
    exists|k: int|
        0 <= k < recipes[i].dependencies.len() && (#[trigger] recipes[i].dependencies[k]).recipe.id
            == recipes[j].id
}

/// For each recipe of the set, the positions of the recipes of the set that
/// it depends on.
pub open spec fn graph(recipes: Seq<RecipeView>) -> Seq<Set<int>> {
    Seq::new(
        recipes.len(),
        |i: int| Set::new(|j: int| 0 <= j < recipes.len() && depends_on(recipes, i, j)),
    )
}

/// Everything that `i` depends on is in `placed`.
pub open spec fn ready(deps: Seq<Set<int>>, placed: Set<int>, i: int) -> bool {
    deps[i].subset_of(placed)
}

/// The positions that the tiers before tier `t` hold.
pub open spec fn placed_before(deps: Seq<Set<int>>, t: nat) -> Set<int>
    decreases t,
{
    if t == 0 {
        Set::empty()
    } else {
        let earlier = placed_before(deps, (t - 1) as nat);
        Set::new(
            |i: int| 0 <= i < deps.len() && (earlier.contains(i) || ready(deps, earlier, i)),
        )
    }
}

/// Position `i` belongs to tier `t`: it is not placed before, and everything
/// it depends on is.
pub open spec fn in_tier(deps: Seq<Set<int>>, t: nat, i: int) -> bool {
    &&& 0 <= i < deps.len()
    &&& !placed_before(deps, t).contains(i)
    &&& ready(deps, placed_before(deps, t), i)
}

/// `rank` orders the positions so that each comes after what it depends on.
pub open spec fn ranks(deps: Seq<Set<int>>, rank: Seq<nat>) -> bool {
    &&& rank.len() == deps.len()
    &&& forall|i: int, j: int|
        0 <= i < deps.len() && 0 <= j < deps.len() && #[trigger] deps[i].contains(j) ==> rank[j]
            < rank[i]
}

/// No position depends on itself, directly or through others.
pub open spec fn acyclic(deps: Seq<Set<int>>) -> bool {
    exists|rank: Seq<nat>| ranks(deps, rank)
}

/// The positions grow from one member to the next.
pub open spec fn ascending(positions: Seq<int>) -> bool {
    forall|a: int, b: int| 0 <= a < b < positions.len() ==> positions[a] < positions[b]
}

/// `tiers` is the layering of `deps`: tier `t` lists, in ascending order, the
/// positions that belong to it; every position is placed; and no tier but
/// the first is empty (the first is, when there is nothing to place).
pub open spec fn is_tiering(deps: Seq<Set<int>>, tiers: Seq<Seq<int>>) -> bool {
    &&& tiers.len() >= 1
    &&& forall|t: int|
        0 <= t < tiers.len() ==> ascending(#[trigger] tiers[t]) && forall|i: int|
            tiers[t].contains(i) <==> in_tier(deps, t as nat, i)
    &&& forall|t: int| 1 <= t < tiers.len() ==> (#[trigger] tiers[t]).len() > 0
    &&& forall|i: int| 0 <= i < deps.len() ==> placed_before(deps, tiers.len()).contains(i)
}

/// A position is never placed, however many tiers are formed.
pub open spec fn never_placed(deps: Seq<Set<int>>, i: int) -> bool {
    forall|t: nat| !placed_before(deps, t).contains(i)
}

/// `stuck` lists, in ascending order, the positions that are never placed.
pub open spec fn is_stuck(deps: Seq<Set<int>>, stuck: Seq<int>) -> bool {
    &&& ascending(stuck)
    &&& forall|i: int|
        #[trigger] stuck.contains(i) <==> 0 <= i < deps.len() && never_placed(deps, i)
}

/// The positions of a list, as integers.
pub open spec fn positions(list: Seq<usize>) -> Seq<int> {
    list.map_values(|p: usize| p as int)
}

/// The tiers of a list of lists, as integers.
pub open spec fn tier_positions(tiers: Seq<Vec<usize>>) -> Seq<Seq<int>> {
    tiers.map_values(|tier: Vec<usize>| positions(tier@))
}

/// The layering failed: the recipes at these positions depend on each other
/// in a circle, or on recipes that do.
#[derive(Debug, PartialEq, Eq)]
pub struct CycleError {
    pub stuck: Vec<usize>,
}

/// What is placed stays placed.
pub proof fn lemma_placed_grows(deps: Seq<Set<int>>, s: nat, t: nat)
    requires
        s <= t,
    ensures
        placed_before(deps, s).subset_of(placed_before(deps, t)),
        forall|i: int| placed_before(deps, t).contains(i) ==> 0 <= i < deps.len(),
    decreases t,
{
    if s < t {
        lemma_placed_grows(deps, s, (t - 1) as nat);
    }
    if t > 0 {
        lemma_placed_grows(deps, (t - 1) as nat, (t - 1) as nat);
    }
}

/// What is placed before tier `t` belongs to one of the tiers before it.
pub proof fn lemma_placed_in_some_tier(deps: Seq<Set<int>>, t: nat, i: int)
    requires
        placed_before(deps, t).contains(i),
    ensures
        exists|s: nat| s < t && in_tier(deps, s, i),
    decreases t,
{
    if t > 0 {
        let earlier = (t - 1) as nat;
        if placed_before(deps, earlier).contains(i) {
            lemma_placed_in_some_tier(deps, earlier, i);
            let s = choose|s: nat| s < earlier && in_tier(deps, s, i);
            assert(s < t && in_tier(deps, s, i));
        } else {
            assert(in_tier(deps, earlier, i));
        }
    }
}

/// Once a tier comes out empty, nothing more is ever placed.
pub proof fn lemma_stuck_forever(deps: Seq<Set<int>>, t: nat, later: nat)
    requires
        forall|i: int| !in_tier(deps, t, i),
    ensures
        placed_before(deps, later).subset_of(placed_before(deps, t)),
    decreases later,
{
    if later <= t {
        lemma_placed_grows(deps, later, t);
    } else {
        let earlier = (later - 1) as nat;
        lemma_stuck_forever(deps, t, earlier);
        lemma_placed_grows(deps, t, earlier);
        assert(placed_before(deps, earlier) =~= placed_before(deps, t));
        assert forall|i: int| placed_before(deps, later).contains(i) implies placed_before(
            deps,
            t,
        ).contains(i) by {
            if !placed_before(deps, t).contains(i) {
                assert(in_tier(deps, t, i));
            }
        }
    }
}

/// Where an order puts each position after what it depends on, and a
/// position remains, one of the remaining positions is ready.
pub proof fn lemma_order_gives_ready(
    deps: Seq<Set<int>>,
    placed: Set<int>,
    rank: Seq<nat>,
    i: int,
) -> (j: int)
    requires
        ranks(deps, rank),
        0 <= i < deps.len(),
        !placed.contains(i),
        forall|a: int, b: int|
            0 <= a < deps.len() && #[trigger] deps[a].contains(b) ==> 0 <= b < deps.len(),
    ensures
        0 <= j < deps.len(),
        !placed.contains(j),
        ready(deps, placed, j),
    decreases rank[i],
{
    if ready(deps, placed, i) {
        i
    } else {
        let next = choose|next: int| deps[i].contains(next) && !placed.contains(next);
        lemma_order_gives_ready(deps, placed, rank, next)
    }
}

/// The list has the position `i`.
spec fn lists(list: Seq<usize>, i: int) -> bool {
    exists|k: int| 0 <= k < list.len() && #[trigger] list[k] == i
}

/// The positions of the list grow from one member to the next.
spec fn increasing(list: Seq<usize>) -> bool {
    forall|a: int, b: int| 0 <= a < b < list.len() ==> list[a] < list[b]
}

/// `edges` lists for each position what `deps` holds for it.
spec fn represents(edges: Seq<Vec<usize>>, deps: Seq<Set<int>>) -> bool {
    &&& edges.len() == deps.len()
    &&& forall|i: int, k: int|
        0 <= i < edges.len() && 0 <= k < edges[i].len() ==> (#[trigger] edges[i][k]) < edges.len()
            && deps[i].contains(edges[i][k] as int)
    &&& forall|i: int, j: int|
        0 <= i < edges.len() && #[trigger] deps[i].contains(j) ==> lists(edges[i]@, j)
}

/// The flags say what is placed before tier `t`.
spec fn flags_at(flags: Seq<bool>, deps: Seq<Set<int>>, t: nat) -> bool {
    &&& flags.len() == deps.len()
    &&& forall|i: int|
        0 <= i < flags.len() ==> (#[trigger] flags[i] <==> placed_before(deps, t).contains(i))
}

/// `rest` lists, in ascending order, what the flags leave unplaced.
spec fn rest_of(rest: Seq<usize>, flags: Seq<bool>) -> bool {
    &&& increasing(rest)
    &&& forall|k: int|
        0 <= k < rest.len() ==> (#[trigger] rest[k]) < flags.len() && !flags[rest[k] as int]
    &&& forall|i: int| 0 <= i < flags.len() && !#[trigger] flags[i] ==> lists(rest, i)
}

proof fn lemma_lists(list: Seq<usize>)
    ensures
        increasing(list) <==> ascending(positions(list)),
        forall|i: int| lists(list, i) <==> #[trigger] positions(list).contains(i),
{
    if increasing(list) {
        assert forall|a: int, b: int| 0 <= a < b < positions(list).len() implies positions(
            list,
        )[a] < positions(list)[b] by {
            assert(list[a] < list[b]);
        }
    }
    if ascending(positions(list)) {
        assert forall|a: int, b: int| 0 <= a < b < list.len() implies list[a] < list[b] by {
            assert(positions(list)[a] < positions(list)[b]);
        }
    }
    assert forall|i: int| lists(list, i) <==> #[trigger] positions(list).contains(i) by {
        if lists(list, i) {
            let k = choose|k: int| 0 <= k < list.len() && #[trigger] list[k] == i;
            assert(positions(list)[k] == i);
        }
        if positions(list).contains(i) {
            let k = choose|k: int| 0 <= k < positions(list).len() && positions(list)[k] == i;
            assert(list[k] == i);
        }
    }
}

fn names_dependency(dependencies: &Vec<Dependency>, id: &str) -> (found: bool)
    ensures
        found <==> exists|k: int|
            0 <= k < dependencies.len() && (#[trigger] views(dependencies@)[k]).recipe.id == id@,
{
    let mut k: usize = 0;
    while k < dependencies.len()
        invariant
            k <= dependencies.len(),
            forall|m: int| 0 <= m < k ==> (#[trigger] views(dependencies@)[m]).recipe.id != id@,
        decreases dependencies.len() - k,
    {
        if same_text(dependencies[k].recipe.id.as_str(), id) {
            assert(views(dependencies@)[k as int].recipe.id == id@);
            return true;
        }
        k += 1;
    }
    false
}

fn dependency_positions(recipes: &Vec<Recipe>) -> (edges: Vec<Vec<usize>>)
    ensures
        represents(edges@, graph(views(recipes@))),
{
    let n = recipes.len();
    let ghost set = views(recipes@);
    let ghost deps = graph(set);
    let mut edges: Vec<Vec<usize>> = Vec::new();
    let mut i: usize = 0;
    while i < n
        invariant
            n == recipes.len(),
            set == views(recipes@),
            deps == graph(set),
            i <= n,
            edges.len() == i,
            forall|a: int, k: int|
                0 <= a < i && 0 <= k < edges[a].len() ==> (#[trigger] edges[a][k]) < n
                    && deps[a].contains(edges[a][k] as int),
            forall|a: int, j: int|
                0 <= a < i && #[trigger] deps[a].contains(j) ==> lists(edges[a]@, j),
        decreases n - i,
    {
        let mut list: Vec<usize> = Vec::new();
        let mut j: usize = 0;
        while j < n
            invariant
                n == recipes.len(),
                set == views(recipes@),
                deps == graph(set),
                i < n,
                j <= n,
                forall|k: int|
                    0 <= k < list.len() ==> (#[trigger] list[k]) < j && deps[i as int].contains(
                        list[k] as int,
                    ),
                forall|m: int|
                    0 <= m < j && #[trigger] deps[i as int].contains(m) ==> lists(list@, m),
            decreases n - j,
        {
            let ghost before = list@;
            let found = names_dependency(&recipes[i].dependencies, recipes[j].id.as_str());
            proof {
                assert(set[i as int] == recipes[i as int]@);
                assert(set[j as int] == recipes[j as int]@);
                assert(set[i as int].dependencies == views(recipes[i as int].dependencies@));
                assert(found <==> depends_on(set, i as int, j as int));
            }
            if found {
                list.push(j);
            }
            assert forall|m: int| 0 <= m < j + 1 && #[trigger] deps[i as int].contains(
                m,
            ) implies lists(list@, m) by {
                if m < j {
                    let k = choose|k: int| 0 <= k < before.len() && #[trigger] before[k] == m;
                    assert(list[k] == m);
                } else {
                    assert(list[list.len() - 1] == m);
                }
            }
            j += 1;
        }
        edges.push(list);
        i += 1;
    }
    edges
}

fn settled(list: &Vec<usize>, flags: &Vec<bool>) -> (all: bool)
    requires
        forall|k: int| 0 <= k < list.len() ==> (#[trigger] list[k]) < flags.len(),
    ensures
        all <==> forall|k: int| 0 <= k < list.len() ==> flags[(#[trigger] list[k]) as int],
{
    let mut k: usize = 0;
    while k < list.len()
        invariant
            k <= list.len(),
            forall|m: int| 0 <= m < list.len() ==> (#[trigger] list[m]) < flags.len(),
            forall|m: int| 0 <= m < k ==> flags[(#[trigger] list[m]) as int],
        decreases list.len() - k,
    {
        if !flags[list[k]] {
            return false;
        }
        k += 1;
    }
    true
}

/// Splits what is left into what tier `t` takes and what stays.
fn split_ready(
    edges: &Vec<Vec<usize>>,
    flags: &Vec<bool>,
    rest: &Vec<usize>,
    Ghost(deps): Ghost<Seq<Set<int>>>,
    Ghost(t): Ghost<nat>,
) -> (parts: (Vec<usize>, Vec<usize>))
    requires
        represents(edges@, deps),
        flags_at(flags@, deps, t),
        rest_of(rest@, flags@),
    ensures
        parts.0.len() + parts.1.len() == rest.len(),
        increasing(parts.0@),
        increasing(parts.1@),
        forall|i: int| lists(parts.0@, i) <==> in_tier(deps, t, i),
        forall|i: int|
            lists(parts.1@, i) <==> 0 <= i < flags.len() && !flags[i] && !in_tier(deps, t, i),
{
    let mut taken: Vec<usize> = Vec::new();
    let mut left: Vec<usize> = Vec::new();
    let mut k: usize = 0;
    while k < rest.len()
        invariant
            represents(edges@, deps),
            flags_at(flags@, deps, t),
            rest_of(rest@, flags@),
            k <= rest.len(),
            taken.len() + left.len() == k,
            increasing(taken@),
            increasing(left@),
            forall|m: int| 0 <= m < taken.len() ==> k > 0 && (#[trigger] taken[m]) <= rest[k - 1],
            forall|m: int| 0 <= m < left.len() ==> k > 0 && (#[trigger] left[m]) <= rest[k - 1],
            forall|m: int| 0 <= m < taken.len() ==> in_tier(deps, t, (#[trigger] taken[m]) as int),
            forall|m: int|
                0 <= m < left.len() ==> (#[trigger] left[m]) < flags.len() && !flags[left[m] as int]
                    && !in_tier(deps, t, left[m] as int),
            forall|m: int|
                0 <= m < k ==> if in_tier(deps, t, (#[trigger] rest[m]) as int) {
                    lists(taken@, rest[m] as int)
                } else {
                    lists(left@, rest[m] as int)
                },
        decreases rest.len() - k,
    {
        let p = rest[k];
        let ghost old_taken = taken@;
        let ghost old_left = left@;
        assert(k > 0 ==> rest[k - 1] < rest[k as int]);
        let all = settled(&edges[p], flags);
        proof {
            let earlier = placed_before(deps, t);
            if all {
                assert forall|j: int| deps[p as int].contains(j) implies earlier.contains(j) by {
                    let m = choose|m: int|
                        0 <= m < edges[p as int].len() && #[trigger] edges[p as int][m] == j;
                    assert(flags[edges[p as int][m] as int]);
                }
            } else {
                let m = choose|m: int|
                    0 <= m < edges[p as int].len() && !flags[(#[trigger] edges[p as int][m])
                        as int];
                assert(deps[p as int].contains(edges[p as int][m] as int));
            }
            assert(all <==> in_tier(deps, t, p as int));
        }
        if all {
            taken.push(p);
        } else {
            left.push(p);
        }
        proof {
            assert forall|m: int| 0 <= m < k + 1 implies if in_tier(
                deps,
                t,
                (#[trigger] rest[m]) as int,
            ) {
                lists(taken@, rest[m] as int)
            } else {
                lists(left@, rest[m] as int)
            } by {
                if m < k {
                    if in_tier(deps, t, rest[m] as int) {
                        let a = choose|a: int|
                            0 <= a < old_taken.len() && #[trigger] old_taken[a] == rest[m] as int;
                        assert(taken[a] == rest[m]);
                    } else {
                        let a = choose|a: int|
                            0 <= a < old_left.len() && #[trigger] old_left[a] == rest[m] as int;
                        assert(left[a] == rest[m]);
                    }
                } else if all {
                    assert(taken[taken.len() - 1] == p);
                } else {
                    assert(left[left.len() - 1] == p);
                }
            }
        }
        k += 1;
    }
    proof {
        assert forall|i: int| lists(taken@, i) <==> in_tier(deps, t, i) by {
            if in_tier(deps, t, i) {
                assert(!flags[i]);
                let m = choose|m: int| 0 <= m < rest.len() && #[trigger] rest[m] == i;
                assert(lists(taken@, rest[m] as int));
            }
        }
        assert forall|i: int|
            lists(left@, i) <==> 0 <= i < flags.len() && !flags[i] && !in_tier(deps, t, i) by {
            if 0 <= i < flags.len() && !flags[i] && !in_tier(deps, t, i) {
                let m = choose|m: int| 0 <= m < rest.len() && #[trigger] rest[m] == i;
                assert(lists(left@, rest[m] as int));
            }
        }
    }
    (taken, left)
}

/// A position belongs to one tier only.
pub proof fn lemma_one_tier(deps: Seq<Set<int>>, s: nat, t: nat, i: int)
    requires
        in_tier(deps, s, i),
        in_tier(deps, t, i),
    ensures
        s == t,
{
    if s < t {
        assert(placed_before(deps, s + 1).contains(i));
        lemma_placed_grows(deps, s + 1, t);
    }
    if t < s {
        assert(placed_before(deps, t + 1).contains(i));
        lemma_placed_grows(deps, t + 1, s);
    }
}

/// What a position depends on belongs to an earlier tier than the position.
pub proof fn lemma_dependency_earlier(deps: Seq<Set<int>>, t: nat, i: int, j: int) -> (s: nat)
    requires
        in_tier(deps, t, i),
        deps[i].contains(j),
    ensures
        s < t,
        in_tier(deps, s, j),
{
    lemma_placed_in_some_tier(deps, t, j);
    choose|s: nat| s < t && in_tier(deps, s, j)
}

/// Where every position is placed after finitely many tiers, nothing
/// depends on itself.
pub proof fn lemma_placed_is_acyclic(deps: Seq<Set<int>>, count: nat)
    requires
        forall|i: int| 0 <= i < deps.len() ==> placed_before(deps, count).contains(i),
    ensures
        acyclic(deps),
{
    let rank = Seq::new(deps.len(), |i: int| choose|s: nat| s < count && in_tier(deps, s, i));
    assert forall|i: int, j: int|
        0 <= i < deps.len() && 0 <= j < deps.len() && #[trigger] deps[i].contains(
            j,
        ) implies rank[j] < rank[i] by {
        lemma_placed_in_some_tier(deps, count, i);
        lemma_placed_in_some_tier(deps, count, j);
        let s = lemma_dependency_earlier(deps, rank[i], i, j);
        lemma_one_tier(deps, s, rank[j], j);
    }
    assert(ranks(deps, rank));
}

fn mark(flags: &mut Vec<bool>, taken: &Vec<usize>)
    requires
        forall|k: int| 0 <= k < taken.len() ==> (#[trigger] taken[k]) < old(flags).len(),
    ensures
        final(flags).len() == old(flags).len(),
        forall|i: int|
            0 <= i < old(flags).len() ==> (#[trigger] final(flags)[i] <==> old(flags)[i] || lists(
                taken@,
                i,
            )),
{
    let mut k: usize = 0;
    while k < taken.len()
        invariant
            k <= taken.len(),
            flags.len() == old(flags).len(),
            forall|m: int| 0 <= m < taken.len() ==> (#[trigger] taken[m]) < flags.len(),
            forall|i: int|
                0 <= i < flags.len() ==> (#[trigger] flags[i] <==> old(flags)[i] || lists(
                    taken@.take(k as int),
                    i,
                )),
        decreases taken.len() - k,
    {
        let ghost before = flags@;
        flags.set(taken[k], true);
        proof {
            let shorter = taken@.take(k as int);
            let longer = taken@.take(k as int + 1);
            assert forall|i: int| 0 <= i < flags.len() implies (#[trigger] flags[i] <==> old(
                flags,
            )[i] || lists(longer, i)) by {
                if lists(shorter, i) {
                    let m = choose|m: int| 0 <= m < shorter.len() && #[trigger] shorter[m] == i;
                    assert(longer[m] == i);
                }
                if lists(longer, i) {
                    let m = choose|m: int| 0 <= m < longer.len() && #[trigger] longer[m] == i;
                    if m < k {
                        assert(shorter[m] == i);
                    }
                }
                if i == taken[k as int] {
                    assert(longer[k as int] == i);
                }
            }
        }
        k += 1;
    }
    assert(taken@.take(k as int) =~= taken@);
}

fn layers(edges: &Vec<Vec<usize>>, Ghost(deps): Ghost<Seq<Set<int>>>) -> (outcome: Result<
    Vec<Vec<usize>>,
    Vec<usize>,
>)
    requires
        represents(edges@, deps),
    ensures
        match outcome {
            Ok(tiers) => acyclic(deps) && is_tiering(deps, tier_positions(tiers@)),
            Err(stuck) => !acyclic(deps) && is_stuck(deps, positions(stuck@)),
        },
{
    let n = edges.len();
    let mut flags: Vec<bool> = Vec::new();
    let mut rest: Vec<usize> = Vec::new();
    let mut i: usize = 0;
    while i < n
        invariant
            i <= n,
            flags.len() == i,
            rest.len() == i,
            forall|k: int| 0 <= k < i ==> !#[trigger] flags[k],
            forall|k: int| 0 <= k < i ==> #[trigger] rest[k] == k,
        decreases n - i,
    {
        flags.push(false);
        rest.push(i);
        i += 1;
    }
    assert(rest_of(rest@, flags@)) by {
        assert forall|i: int| 0 <= i < flags.len() && !#[trigger] flags[i] implies lists(
            rest@,
            i,
        ) by {
            assert(rest[i] == i);
        }
    }
    let mut tiers: Vec<Vec<usize>> = Vec::new();
    loop
        invariant
            n == edges.len(),
            represents(edges@, deps),
            flags_at(flags@, deps, tiers.len() as nat),
            rest_of(rest@, flags@),
            tiers.len() > 0 ==> rest.len() > 0,
            forall|t: int|
                0 <= t < tiers.len() ==> increasing((#[trigger] tiers[t])@) && forall|i: int|
                    lists(tiers[t]@, i) <==> in_tier(deps, t as nat, i),
            forall|t: int| 1 <= t < tiers.len() ==> (#[trigger] tiers[t]).len() > 0,
        decreases rest.len(),
    {
        let ghost t = tiers.len() as nat;
        let ghost old_flags = flags@;
        let (taken, left) = split_ready(edges, &flags, &rest, Ghost(deps), Ghost(t));
        if taken.len() == 0 && rest.len() > 0 {
            proof {
                let placed = placed_before(deps, t);
                assert forall|i: int| !in_tier(deps, t, i) by {
                    if in_tier(deps, t, i) {
                        assert(lists(taken@, i));
                    }
                }
                if acyclic(deps) {
                    let rank = choose|rank: Seq<nat>| ranks(deps, rank);
                    let first = rest[0] as int;
                    assert(!flags[first]);
                    assert forall|a: int, b: int|
                        0 <= a < deps.len() && #[trigger] deps[a].contains(b) implies 0 <= b
                        < deps.len() by {
                        assert(lists(edges[a]@, b));
                    }
                    let j = lemma_order_gives_ready(deps, placed, rank, first);
                    assert(in_tier(deps, t, j));
                }
                lemma_lists(rest@);
                assert forall|i: int|
                    positions(rest@).contains(i) <==> 0 <= i < deps.len() && never_placed(
                        deps,
                        i,
                    ) by {
                    if lists(rest@, i) {
                        assert forall|later: nat| !placed_before(deps, later).contains(i) by {
                            lemma_stuck_forever(deps, t, later);
                        }
                    }
                    if 0 <= i < deps.len() && never_placed(deps, i) {
                        assert(!placed_before(deps, t).contains(i));
                        assert(!flags[i]);
                    }
                }
            }
            return Err(rest);
        }
        assert forall|k: int| 0 <= k < taken.len() implies (#[trigger] taken[k])
            < flags.len() by {
            assert(lists(taken@, taken[k] as int));
            assert(in_tier(deps, t, taken[k] as int));
            assert(flags.len() == deps.len());
        }
        mark(&mut flags, &taken);
        proof {
            lemma_placed_grows(deps, t, t);
            assert forall|i: int| 0 <= i < flags.len() implies (#[trigger] flags[i]
                <==> placed_before(deps, t + 1).contains(i)) by {
                assert(old_flags[i] <==> placed_before(deps, t).contains(i));
            }
            assert forall|k: int| 0 <= k < left.len() implies (#[trigger] left[k]) < flags.len()
                && !flags[left[k] as int] by {
                let p = left[k] as int;
                assert(lists(left@, p));
                assert(!old_flags[p] && !in_tier(deps, t, p));
                assert(!lists(taken@, p));
                assert(flags[p] <==> old_flags[p] || lists(taken@, p));
            }
            assert forall|i: int| 0 <= i < flags.len() && !#[trigger] flags[i] implies lists(
                left@,
                i,
            ) by {
                assert(!old_flags[i]);
                if in_tier(deps, t, i) {
                    assert(lists(taken@, i));
                }
            }
        }
        tiers.push(taken);
        rest = left;
        if rest.len() == 0 {
            proof {
                let count = tiers.len() as nat;
                assert forall|i: int| 0 <= i < deps.len() implies placed_before(
                    deps,
                    count,
                ).contains(i) by {
                    if !flags[i] {
                        assert(lists(rest@, i));
                    }
                }
                lemma_placed_is_acyclic(deps, count);
                let places = tier_positions(tiers@);
                assert forall|t: int| 0 <= t < places.len() implies ascending(
                    #[trigger] places[t],
                ) && forall|i: int| places[t].contains(i) <==> in_tier(deps, t as nat, i) by {
                    lemma_lists(tiers[t]@);
                    assert(places[t] == positions(tiers[t]@));
                }
                assert forall|t: int| 1 <= t < places.len() implies (#[trigger] places[t]).len()
                    > 0 by {
                    assert(places[t] == positions(tiers[t]@));
                }
            }
            return Ok(tiers);
        }
    }
}

/// Layers a set of recipes by dependency and gives each tier as the
/// ascending positions of its recipes. Fails exactly when recipes of the set
/// depend on each other in a circle, and then names the recipes that can
/// never be placed.
pub fn recipe_tier_positions(recipes: &Vec<Recipe>) -> (outcome: Result<
    Vec<Vec<usize>>,
    CycleError,
>)
    ensures
        match outcome {
            Ok(tiers) => acyclic(graph(views(recipes@))) && is_tiering(
                graph(views(recipes@)),
                tier_positions(tiers@),
            ) && tier_positions(tiers@) == tiering(graph(views(recipes@))),
            Err(error) => !acyclic(graph(views(recipes@))) && is_stuck(
                graph(views(recipes@)),
                positions(error.stuck@),
            ),
        },
{
    let edges = dependency_positions(recipes);
    let ghost deps = graph(views(recipes@));
    match layers(&edges, Ghost(deps)) {
        Ok(tiers) => {
            proof {
                lemma_tiering_unique(deps, tier_positions(tiers@), tiering(deps));
            }
            Ok(tiers)
        },
        Err(stuck) => Err(CycleError { stuck }),
    }
}

/// The recipes at `places`, tier by tier.
pub open spec fn placed_recipes(recipes: Seq<Recipe>, places: Seq<Seq<int>>) -> Seq<Seq<Recipe>> {
    places.map_values(|tier: Seq<int>| tier.map_values(|p: int| recipes[p]))
}

/// The recipes that a list of tiers refers to.
pub open spec fn referred(tiers: Seq<Vec<&Recipe>>) -> Seq<Seq<Recipe>> {
    tiers.map_values(|tier: Vec<&Recipe>| tier@.map_values(|r: &Recipe| *r))
}

/// Layers a set of recipes by dependency: each recipe comes in a later tier
/// than the recipes of the set that it depends on, and as early as that
/// allows. Within a tier the recipes keep the order of the set. Fails
/// exactly when recipes of the set depend on each other in a circle.
pub fn recipe_tiers<'a>(recipes: &'a Vec<Recipe>) -> (outcome: Result<
    Vec<Vec<&'a Recipe>>,
    CycleError,
>)
    ensures
        match outcome {
            Ok(tiers) => acyclic(graph(views(recipes@))) && is_tiering(
                graph(views(recipes@)),
                tiering(graph(views(recipes@))),
            ) && referred(tiers@) == placed_recipes(recipes@, tiering(graph(views(recipes@)))),
            Err(error) => !acyclic(graph(views(recipes@))) && is_stuck(
                graph(views(recipes@)),
                positions(error.stuck@),
            ),
        },
{
    let places = match recipe_tier_positions(recipes) {
        Ok(places) => places,
        Err(error) => {
            return Err(error);
        },
    };
    let ghost deps = graph(views(recipes@));
    let ghost all = tier_positions(places@);
    let mut tiers: Vec<Vec<&'a Recipe>> = Vec::new();
    let mut t: usize = 0;
    while t < places.len()
        invariant
            t <= places.len(),
            tiers.len() == t,
            deps == graph(views(recipes@)),
            all == tier_positions(places@),
            is_tiering(deps, all),
            forall|s: int|
                0 <= s < t ==> (#[trigger] tiers[s])@.map_values(|r: &Recipe| *r)
                    == all[s].map_values(|p: int| recipes[p]),
        decreases places.len() - t,
    {
        let tier = &places[t];
        let mut members: Vec<&'a Recipe> = Vec::new();
        let mut k: usize = 0;
        while k < tier.len()
            invariant
                k <= tier.len(),
                members.len() == k,
                0 <= t < places.len(),
                tier == places[t as int],
                deps == graph(views(recipes@)),
                all == tier_positions(places@),
                is_tiering(deps, all),
                forall|m: int| 0 <= m < k ==> *(#[trigger] members[m]) == recipes[tier[m] as int],
            decreases tier.len() - k,
        {
            proof {
                assert(all[t as int] == positions(tier@));
                assert(positions(tier@)[k as int] == tier[k as int]);
                assert(all[t as int].contains(tier[k as int] as int));
                assert(in_tier(deps, t as nat, tier[k as int] as int));
            }
            members.push(&recipes[tier[k]]);
            k += 1;
        }
        proof {
            assert(all[t as int] == positions(tier@));
            assert(members@.map_values(|r: &Recipe| *r) =~= all[t as int].map_values(
                |p: int| recipes[p],
            ));
        }
        tiers.push(members);
        t += 1;
    }
    assert(placed_recipes(recipes@, all) =~= referred(tiers@));
    Ok(tiers)
}

/// One of the first `count` tiers holds the position `i`.
pub open spec fn holds(tiers: Seq<Seq<int>>, count: int, i: int) -> bool {
    exists|t: int, k: int|
        0 <= t < count && t < tiers.len() && 0 <= k < tiers[t].len() && #[trigger] tiers[t][k] == i
}

/// The tiers of a layering split the set exactly, and each recipe comes
/// strictly after what it depends on: every place holds a recipe of the set,
/// every recipe has a place, no recipe has two, and whatever a recipe
/// depends on within the set has its place in an earlier tier.
pub proof fn lemma_tiers_partition_in_order(recipes: Seq<RecipeView>, tiers: Seq<Seq<int>>)
    requires
        is_tiering(graph(recipes), tiers),
    ensures
        forall|t: int, k: int|
            0 <= t < tiers.len() && 0 <= k < tiers[t].len() ==> 0 <= #[trigger] tiers[t][k]
                < recipes.len(),
        forall|i: int| 0 <= i < recipes.len() ==> #[trigger] holds(tiers, tiers.len() as int, i),
        forall|t: int, k: int, u: int, m: int|
            0 <= t < tiers.len() && 0 <= k < tiers[t].len() && 0 <= u < tiers.len() && 0 <= m
                < tiers[u].len() && #[trigger] tiers[t][k] == #[trigger] tiers[u][m] ==> t == u
                && k == m,
        forall|t: int, k: int, j: int|
            0 <= t < tiers.len() && 0 <= k < tiers[t].len() && 0 <= j < recipes.len()
                && #[trigger] depends_on(recipes, tiers[t][k], j) ==> holds(tiers, t, j),
{
    let deps = graph(recipes);
    assert forall|t: int, k: int| 0 <= t < tiers.len() && 0 <= k < tiers[t].len() implies 0
        <= #[trigger] tiers[t][k] < recipes.len() by {
        assert(tiers[t].contains(tiers[t][k]));
    }
    assert forall|i: int| 0 <= i < recipes.len() implies #[trigger] holds(
        tiers,
        tiers.len() as int,
        i,
    ) by {
        lemma_placed_in_some_tier(deps, tiers.len(), i);
        let s = choose|s: nat| s < tiers.len() && in_tier(deps, s, i);
        assert(tiers[s as int].contains(i));
        let k = choose|k: int| 0 <= k < tiers[s as int].len() && tiers[s as int][k] == i;
        assert(tiers[s as int][k] == i);
    }
    assert forall|t: int, k: int, u: int, m: int|
        0 <= t < tiers.len() && 0 <= k < tiers[t].len() && 0 <= u < tiers.len() && 0 <= m
            < tiers[u].len() && #[trigger] tiers[t][k] == #[trigger] tiers[u][m] implies t == u
        && k == m by {
        assert(tiers[t].contains(tiers[t][k]));
        assert(tiers[u].contains(tiers[u][m]));
        lemma_one_tier(deps, t as nat, u as nat, tiers[t][k]);
        assert(ascending(tiers[t]));
    }
    assert forall|t: int, k: int, j: int|
        0 <= t < tiers.len() && 0 <= k < tiers[t].len() && 0 <= j < recipes.len()
            && #[trigger] depends_on(recipes, tiers[t][k], j) implies holds(tiers, t, j) by {
        let i = tiers[t][k];
        assert(tiers[t].contains(i));
        assert(deps[i].contains(j));
        let s = lemma_dependency_earlier(deps, t as nat, i, j);
        assert(tiers[s as int].contains(j));
        let m = choose|m: int| 0 <= m < tiers[s as int].len() && tiers[s as int][m] == j;
        assert(tiers[s as int][m] == j);
    }
}

/// Two ascending lists with the same members are the same list.
pub proof fn lemma_ascending_unique(x: Seq<int>, y: Seq<int>)
    requires
        ascending(x),
        ascending(y),
        forall|i: int| x.contains(i) <==> y.contains(i),
    ensures
        x == y,
    decreases x.len(),
{
    if x.len() == 0 {
        if y.len() > 0 {
            assert(y.contains(y[0]));
        }
        assert(x =~= y);
    } else {
        let top = x.last();
        assert(x.contains(top));
        assert(y.len() > 0);
        assert(y.contains(y.last()));
        let at = choose|k: int| 0 <= k < y.len() && y[k] == top;
        let back = choose|k: int| 0 <= k < x.len() && x[k] == y.last();
        assert(y.last() == top);
        let shorter = x.drop_last();
        let other = y.drop_last();
        assert forall|i: int| shorter.contains(i) <==> other.contains(i) by {
            if shorter.contains(i) {
                let k = choose|k: int| 0 <= k < shorter.len() && shorter[k] == i;
                assert(x[k] == i && i < top);
                assert(x.contains(i));
                let m = choose|m: int| 0 <= m < y.len() && y[m] == i;
                assert(other[m] == i);
            }
            if other.contains(i) {
                let k = choose|k: int| 0 <= k < other.len() && other[k] == i;
                assert(y[k] == i && i < top);
                assert(y.contains(i));
                let m = choose|m: int| 0 <= m < x.len() && x[m] == i;
                assert(shorter[m] == i);
            }
        }
        lemma_ascending_unique(shorter, other);
        assert(x =~= shorter.push(top));
        assert(y =~= other.push(top));
    }
}

/// A set of recipes has one layering at most.
pub proof fn lemma_tiering_unique(deps: Seq<Set<int>>, a: Seq<Seq<int>>, b: Seq<Seq<int>>)
    requires
        is_tiering(deps, a),
        is_tiering(deps, b),
    ensures
        a == b,
{
    if a.len() < b.len() {
        let extra = b[a.len() as int];
        assert(extra.contains(extra[0]));
        assert(in_tier(deps, a.len(), extra[0]));
    }
    if b.len() < a.len() {
        let extra = a[b.len() as int];
        assert(extra.contains(extra[0]));
        assert(in_tier(deps, b.len(), extra[0]));
    }
    assert forall|t: int| 0 <= t < a.len() implies a[t] == b[t] by {
        lemma_ascending_unique(a[t], b[t]);
    }
    assert(a =~= b);
}

/// The layering of a set of recipes, where it has one.
pub open spec fn tiering(deps: Seq<Set<int>>) -> Seq<Seq<int>> {
    choose|tiers: Seq<Seq<int>>| is_tiering(deps, tiers)
}

/// How many places the tiers have in all.
pub open spec fn place_count(tiers: Seq<Seq<int>>) -> nat
    decreases tiers.len(),
{
    if tiers.len() == 0 {
        0
    } else {
        place_count(tiers.drop_last()) + tiers.last().len()
    }
}

proof fn lemma_placed_count(deps: Seq<Set<int>>, tiers: Seq<Seq<int>>, t: nat)
    requires
        is_tiering(deps, tiers),
        t <= tiers.len(),
    ensures
        placed_before(deps, t).finite(),
        placed_before(deps, t).len() == place_count(tiers.take(t as int)),
    decreases t,
{
    if t == 0 {
        assert(tiers.take(0) =~= Seq::empty());
        assert(placed_before(deps, 0) =~= Set::empty());
    } else {
        let earlier = (t - 1) as nat;
        lemma_placed_count(deps, tiers, earlier);
        let tier = tiers[earlier as int];
        let before = placed_before(deps, earlier);
        assert(tiers.take(t as int).drop_last() =~= tiers.take(earlier as int));
        assert(tiers.take(t as int).last() == tier);
        assert(tier.no_duplicates()) by {
            assert(ascending(tier));
        }
        tier.unique_seq_to_set();
        lemma_placed_grows(deps, earlier, earlier);
        assert(placed_before(deps, t) =~= before.union(tier.to_set())) by {
            assert forall|i: int| placed_before(deps, t).contains(i) <==> before.union(
                tier.to_set(),
            ).contains(i) by {
                assert(tier.contains(i) <==> in_tier(deps, earlier, i));
            }
        }
        assert(before.disjoint(tier.to_set())) by {
            assert forall|i: int| !(before.contains(i) && tier.to_set().contains(i)) by {
                assert(tier.contains(i) <==> in_tier(deps, earlier, i));
            }
        }
        lemma_set_disjoint_lens(before, tier.to_set());
    }
}

/// The tiers of a layering have as many places as the set has recipes.
pub proof fn lemma_tiers_count(deps: Seq<Set<int>>, tiers: Seq<Seq<int>>)
    requires
        is_tiering(deps, tiers),
    ensures
        place_count(tiers) == deps.len(),
{
    lemma_placed_count(deps, tiers, tiers.len());
    assert(tiers.take(tiers.len() as int) =~= tiers);
    lemma_placed_grows(deps, tiers.len(), tiers.len());
    assert(placed_before(deps, tiers.len()) =~= set_int_range(0, deps.len() as int));
    lemma_int_range(0, deps.len() as int);
}

/// The list `b` holds the recipes of the list `a` in another order: `to[i]`
/// is where the recipe `a[i]` stands in `b`, and every place of `b` is taken
/// once.
pub open spec fn rearranges(a: Seq<RecipeView>, b: Seq<RecipeView>, to: Seq<int>) -> bool {
    &&& a.len() == b.len()
    &&& a.len() == to.len()
    &&& forall|i: int| 0 <= i < a.len() ==> 0 <= #[trigger] to[i] < b.len() && b[to[i]] == a[i]
    &&& forall|i: int, j: int| 0 <= i < j < a.len() ==> to[i] != to[j]
    &&& forall|j: int| 0 <= j < b.len() ==> #[trigger] to.contains(j)
}

/// Whether a position is placed before a tier does not depend on the order
/// in which the recipes stand.
pub proof fn lemma_placed_rearranged(a: Seq<RecipeView>, b: Seq<RecipeView>, to: Seq<int>, t: nat)
    requires
        rearranges(a, b, to),
    ensures
        forall|i: int|
            0 <= i < a.len() ==> (placed_before(graph(a), t).contains(i) <==> placed_before(
                graph(b),
                t,
            ).contains(#[trigger] to[i])),
    decreases t,
{
    if t > 0 {
        let earlier = (t - 1) as nat;
        lemma_placed_rearranged(a, b, to, earlier);
        let pa = placed_before(graph(a), earlier);
        let pb = placed_before(graph(b), earlier);
        assert forall|i: int| 0 <= i < a.len() implies (placed_before(graph(a), t).contains(i)
            <==> placed_before(graph(b), t).contains(#[trigger] to[i])) by {
            let j = to[i];
            assert(b[j] == a[i]);
            if ready(graph(a), pa, i) {
                assert forall|m: int| graph(b)[j].contains(m) implies pb.contains(m) by {
                    assert(to.contains(m));
                    let k = choose|k: int| 0 <= k < to.len() && to[k] == m;
                    assert(b[m] == a[k]);
                    assert(depends_on(b, j, m));
                    let w = choose|w: int|
                        0 <= w < b[j].dependencies.len() && (
                        #[trigger] b[j].dependencies[w]).recipe.id == b[m].id;
                    assert(a[i].dependencies[w].recipe.id == a[k].id);
                    assert(depends_on(a, i, k));
                    assert(graph(a)[i].contains(k));
                    assert(pa.contains(k));
                }
            }
            if ready(graph(b), pb, j) {
                assert forall|k: int| graph(a)[i].contains(k) implies pa.contains(k) by {
                    let m = to[k];
                    assert(b[m] == a[k]);
                    assert(depends_on(a, i, k));
                    let w = choose|w: int|
                        0 <= w < a[i].dependencies.len() && (
                        #[trigger] a[i].dependencies[w]).recipe.id == a[k].id;
                    assert(b[j].dependencies[w].recipe.id == b[m].id);
                    assert(depends_on(b, j, m));
                    assert(graph(b)[j].contains(m));
                    assert(pb.contains(m));
                }
            }
        }
    }
}

/// The tiers do not depend on the order in which the recipes stand: two
/// lists that hold the same recipes have as many tiers, and a recipe is in
/// the same tier in both.
pub proof fn lemma_tiers_rearranged(
    a: Seq<RecipeView>,
    b: Seq<RecipeView>,
    to: Seq<int>,
    ta: Seq<Seq<int>>,
    tb: Seq<Seq<int>>,
)
    requires
        rearranges(a, b, to),
        is_tiering(graph(a), ta),
        is_tiering(graph(b), tb),
    ensures
        ta.len() == tb.len(),
        forall|t: int, i: int|
            0 <= t < ta.len() && 0 <= i < a.len() ==> (ta[t].contains(i) <==> (
            #[trigger] tb[t]).contains(#[trigger] to[i])),
{
    let da = graph(a);
    let db = graph(b);
    if ta.len() < tb.len() {
        let count = ta.len();
        let extra = tb[count as int];
        assert(extra.contains(extra[0]));
        let m = extra[0];
        assert(in_tier(db, count, m));
        assert(to.contains(m));
        let k = choose|k: int| 0 <= k < to.len() && to[k] == m;
        lemma_placed_rearranged(a, b, to, count);
        assert(placed_before(da, count).contains(k));
    }
    if tb.len() < ta.len() {
        let count = tb.len();
        let extra = ta[count as int];
        assert(extra.contains(extra[0]));
        let k = extra[0];
        assert(in_tier(da, count, k));
        lemma_placed_rearranged(a, b, to, count);
        assert(placed_before(db, count).contains(to[k]));
    }
    assert forall|t: int, i: int| 0 <= t < ta.len() && 0 <= i < a.len() implies (ta[t].contains(
        i,
    ) <==> (#[trigger] tb[t]).contains(#[trigger] to[i])) by {
        lemma_placed_rearranged(a, b, to, t as nat);
        lemma_placed_rearranged(a, b, to, (t + 1) as nat);
        assert(ta[t].contains(i) <==> in_tier(da, t as nat, i));
        assert(tb[t].contains(to[i]) <==> in_tier(db, t as nat, to[i]));
        assert(in_tier(da, t as nat, i) <==> placed_before(da, (t + 1) as nat).contains(i)
            && !placed_before(da, t as nat).contains(i));
        assert(in_tier(db, t as nat, to[i]) <==> placed_before(db, (t + 1) as nat).contains(to[i])
            && !placed_before(db, t as nat).contains(to[i]));
    }
}

/// The positions below `n` that satisfy `pred`, in ascending order.
pub open spec fn selected(n: nat, pred: spec_fn(int) -> bool) -> Seq<int>
    decreases n,
{
    if n == 0 {
        Seq::empty()
    } else if pred(n - 1) {
        selected((n - 1) as nat, pred).push(n - 1)
    } else {
        selected((n - 1) as nat, pred)
    }
}

/// `selected` lists what it says, in ascending order.
pub proof fn lemma_selected(n: nat, pred: spec_fn(int) -> bool)
    ensures
        ascending(selected(n, pred)),
        forall|i: int| selected(n, pred).contains(i) <==> 0 <= i < n && pred(i),
    decreases n,
{
    if n > 0 {
        let shorter = selected((n - 1) as nat, pred);
        let all = selected(n, pred);
        lemma_selected((n - 1) as nat, pred);
        assert forall|a: int, b: int| 0 <= a < b < all.len() implies all[a] < all[b] by {
            if b < shorter.len() {
                assert(shorter[a] < shorter[b]);
            } else {
                assert(shorter.contains(shorter[a]));
            }
        }
        assert forall|i: int| all.contains(i) <==> 0 <= i < n && pred(i) by {
            if all.contains(i) {
                let k = choose|k: int| 0 <= k < all.len() && all[k] == i;
                if k < shorter.len() {
                    assert(shorter.contains(shorter[k]));
                }
            }
            if 0 <= i < n && pred(i) {
                if i < n - 1 {
                    assert(shorter.contains(i));
                    let k = choose|k: int| 0 <= k < shorter.len() && shorter[k] == i;
                    assert(all[k] == i);
                } else {
                    assert(all[all.len() - 1] == i);
                }
            }
        }
    }
}

/// Every position is placed before tier `t`.
pub open spec fn covered(deps: Seq<Set<int>>, t: nat) -> bool {
    forall|i: int| 0 <= i < deps.len() ==> placed_before(deps, t).contains(i)
}

/// What depends on something depends on a position of the set.
pub open spec fn closed_graph(deps: Seq<Set<int>>) -> bool {
    forall|a: int, b: int|
        0 <= a < deps.len() && #[trigger] deps[a].contains(b) ==> 0 <= b < deps.len()
}

/// The first count of tiers, up to `t`, before which every position is
/// placed; `t` if there is none below it.
pub open spec fn first_cover(deps: Seq<Set<int>>, t: nat) -> nat
    decreases t,
{
    if t == 0 {
        0
    } else if covered(deps, (t - 1) as nat) {
        first_cover(deps, (t - 1) as nat)
    } else {
        t
    }
}

proof fn lemma_first_cover(deps: Seq<Set<int>>, t: nat)
    requires
        covered(deps, t),
    ensures
        covered(deps, first_cover(deps, t)),
        first_cover(deps, t) <= t,
        forall|s: nat| s < first_cover(deps, t) ==> !covered(deps, s),
    decreases t,
{
    if t > 0 {
        if covered(deps, (t - 1) as nat) {
            lemma_first_cover(deps, (t - 1) as nat);
        } else {
            let earlier = (t - 1) as nat;
            assert forall|s: nat| s < t implies !covered(deps, s) by {
                if covered(deps, s) {
                    lemma_placed_grows(deps, s, earlier);
                    let later = placed_before(deps, earlier);
                    assert forall|i: int| 0 <= i < deps.len() implies later.contains(i) by {
                        assert(placed_before(deps, s).contains(i));
                    }
                }
            }
        }
    }
}

proof fn lemma_progress(deps: Seq<Set<int>>, rank: Seq<nat>, t: nat)
    requires
        ranks(deps, rank),
        closed_graph(deps),
    ensures
        placed_before(deps, t).finite(),
        covered(deps, t) || placed_before(deps, t).len() >= t,
    decreases t,
{
    let range = set_int_range(0, deps.len() as int);
    lemma_int_range(0, deps.len() as int);
    lemma_placed_grows(deps, t, t);
    assert(placed_before(deps, t).subset_of(range));
    lemma_len_subset(placed_before(deps, t), range);
    if t > 0 {
        let earlier = (t - 1) as nat;
        let before = placed_before(deps, earlier);
        lemma_progress(deps, rank, earlier);
        lemma_placed_grows(deps, earlier, t);
        if !covered(deps, t) {
            let now = placed_before(deps, t);
            let i = choose|i: int| 0 <= i < deps.len() && !now.contains(i);
            assert(!before.contains(i));
            let j = lemma_order_gives_ready(deps, before, rank, i);
            assert(placed_before(deps, t).contains(j));
            assert(!covered(deps, earlier));
            assert(before.insert(j).subset_of(placed_before(deps, t)));
            lemma_len_subset(before.insert(j), placed_before(deps, t));
        }
    }
}

/// A set in which nothing depends on itself has a layering.
pub proof fn lemma_acyclic_has_tiering(deps: Seq<Set<int>>)
    requires
        acyclic(deps),
        closed_graph(deps),
    ensures
        is_tiering(deps, tiering(deps)),
{
    let n = deps.len();
    let rank = choose|rank: Seq<nat>| ranks(deps, rank);
    lemma_progress(deps, rank, n);
    if !covered(deps, n) {
        let range = set_int_range(0, n as int);
        lemma_int_range(0, n as int);
        lemma_placed_grows(deps, n, n);
        assert(placed_before(deps, n).subset_of(range));
        lemma_len_subset(placed_before(deps, n), range);
        lemma_subset_equality(placed_before(deps, n), range);
        assert forall|i: int| 0 <= i < n implies placed_before(deps, n).contains(i) by {
            assert(range.contains(i));
        }
    }
    lemma_first_cover(deps, n);
    let least = first_cover(deps, n);
    let count: nat = if least == 0 {
        1
    } else {
        least
    };
    lemma_placed_grows(deps, least, count);
    assert forall|i: int| 0 <= i < n implies placed_before(deps, count).contains(i) by {
        assert(placed_before(deps, least).contains(i));
    }
    let tiers = Seq::new(count, |t: int| selected(n, |i: int| in_tier(deps, t as nat, i)));
    assert forall|t: int| 0 <= t < tiers.len() implies ascending(#[trigger] tiers[t]) && forall|
        i: int,
    |
        tiers[t].contains(i) <==> in_tier(deps, t as nat, i) by {
        lemma_selected(n, |i: int| in_tier(deps, t as nat, i));
    }
    assert forall|t: int| 1 <= t < tiers.len() implies (#[trigger] tiers[t]).len() > 0 by {
        assert(!covered(deps, t as nat));
        let placed = placed_before(deps, t as nat);
        let i = choose|i: int| 0 <= i < n && !placed.contains(i);
        let j = lemma_order_gives_ready(deps, placed, rank, i);
        assert(in_tier(deps, t as nat, j));
        assert(tiers[t].contains(j));
    }
    assert(is_tiering(deps, tiers));
}

/// A set of recipes in which no recipe depends on itself, directly or
/// through others, has a layering: its tiers split the set exactly, and
/// each recipe comes strictly after the recipes of the set that it depends
/// on.
pub proof fn lemma_acyclic_recipes_have_tiers(recipes: Seq<RecipeView>)
    requires
        acyclic(graph(recipes)),
    ensures
        is_tiering(graph(recipes), tiering(graph(recipes))),
        place_count(tiering(graph(recipes))) == recipes.len(),
        forall|i: int|
            0 <= i < recipes.len() ==> #[trigger] holds(
                tiering(graph(recipes)),
                tiering(graph(recipes)).len() as int,
                i,
            ),
        forall|t: int, k: int, u: int, m: int|
            0 <= t < tiering(graph(recipes)).len() && 0 <= k < tiering(graph(recipes))[t].len()
                && 0 <= u < tiering(graph(recipes)).len() && 0 <= m < tiering(
                graph(recipes),
            )[u].len() && #[trigger] tiering(graph(recipes))[t][k] == #[trigger] tiering(
                graph(recipes),
            )[u][m] ==> t == u && k == m,
        forall|t: int, k: int, j: int|
            0 <= t < tiering(graph(recipes)).len() && 0 <= k < tiering(graph(recipes))[t].len()
                && 0 <= j < recipes.len() && #[trigger] depends_on(
                recipes,
                tiering(graph(recipes))[t][k],
                j,
            ) ==> holds(tiering(graph(recipes)), t, j),
{
    lemma_acyclic_has_tiering(graph(recipes));
    lemma_tiers_partition_in_order(recipes, tiering(graph(recipes)));
    lemma_tiers_count(graph(recipes), tiering(graph(recipes)));
}

/// Whether recipes depend on each other in a circle does not depend on the
/// order in which they stand.
pub proof fn lemma_acyclic_rearranged(a: Seq<RecipeView>, b: Seq<RecipeView>, to: Seq<int>)
    requires
        rearranges(a, b, to),
        acyclic(graph(a)),
    ensures
        acyclic(graph(b)),
{
    let rank = choose|rank: Seq<nat>| ranks(graph(a), rank);
    let from = Seq::new(b.len(), |j: int| to.index_of(j));
    let moved = Seq::new(b.len(), |j: int| rank[from[j]]);
    assert forall|j: int| 0 <= j < b.len() implies 0 <= #[trigger] from[j] < a.len() && to[from[j]]
        == j by {
        assert(to.contains(j));
    }
    assert forall|j: int, m: int|
        0 <= j < b.len() && 0 <= m < b.len() && #[trigger] graph(b)[j].contains(m) implies moved[m]
        < moved[j] by {
        let i = from[j];
        let k = from[m];
        assert(b[j] == a[i] && b[m] == a[k]);
        let w = choose|w: int|
            0 <= w < b[j].dependencies.len() && (#[trigger] b[j].dependencies[w]).recipe.id
                == b[m].id;
        assert(a[i].dependencies[w].recipe.id == a[k].id);
        assert(depends_on(a, i, k));
        assert(graph(a)[i].contains(k));
    }
    assert(ranks(graph(b), moved));
}

} // verus!
