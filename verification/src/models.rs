//! Records exchanged with a recipe service.
//!
//! Every record is identified by its `id`: two records with the same `id` are
//! the same entity, whatever their other fields hold. Collections inside a
//! record keep the order in which the service listed their members.

use vstd::prelude::*;
use vstd::std_specs::cmp::PartialEqSpecImpl;

verus! {

/// What a listing element stands for: an identifier and a display name.
pub struct EntryView {
    pub id: Seq<char>,
    pub name: Seq<char>,
}

/// Element of a recipe listing.
#[derive(Debug)]
pub struct RecipeIndex {
    pub id: String,
    pub name: String,
}

/// Element of an ingredient listing.
#[derive(Debug)]
pub struct IngredientIndex {
    pub id: String,
    pub name: String,
}

/// Element of a label listing.
#[derive(Debug)]
pub struct LabelIndex {
    pub id: String,
    pub name: String,
}

/// Dietary flags of an ingredient or a recipe.
#[derive(Debug, Clone, Copy, PartialEq, Eq, Structural)]
pub struct Classifications {
    pub dairy: bool,
    pub meat: bool,
    pub gluten: bool,
    pub animal_product: bool,
}

/// Label metadata.
#[derive(Debug)]
pub struct Label {
    pub id: String,
    pub name: String,
    /// Recipes tagged with this label, as the service reports them.
    pub tagged_recipes: Vec<RecipeIndex>,
}

/// What a label holds.
pub struct LabelView {
    pub id: Seq<char>,
    pub name: Seq<char>,
    pub tagged_recipes: Seq<EntryView>,
}

/// Ingredient metadata.
#[derive(Debug)]
pub struct Ingredient {
    pub id: String,
    pub name: String,
    pub classifications: Classifications,
    /// Recipes that require this ingredient, as the service reports them.
    pub used_in: Vec<RecipeIndex>,
}

/// What an ingredient holds.
pub struct IngredientView {
    pub id: Seq<char>,
    pub name: Seq<char>,
    pub classifications: Classifications,
    pub used_in: Seq<EntryView>,
}

/// An ingredient that a recipe needs, and how much of it.
#[derive(Debug)]
pub struct Requirement {
    pub ingredient: IngredientIndex,
    pub quantity: String,
    pub optional: bool,
}

/// What a requirement holds.
pub struct RequirementView {
    pub ingredient: EntryView,
    pub quantity: Seq<char>,
    pub optional: bool,
}

/// A recipe that another recipe builds on, and how much of it.
#[derive(Debug)]
pub struct Dependency {
    pub recipe: RecipeIndex,
    pub quantity: String,
    pub optional: bool,
}

/// What a dependency holds.
pub struct DependencyView {
    pub recipe: EntryView,
    pub quantity: Seq<char>,
    pub optional: bool,
}

/// Recipe metadata.
#[derive(Debug)]
pub struct Recipe {
    pub id: String,
    pub name: String,
    pub author: String,
    pub directions: String,
    pub information: String,
    pub classifications: Classifications,
    pub requirements: Vec<Requirement>,
    pub dependencies: Vec<Dependency>,
    pub tags: Vec<LabelIndex>,
}

/// What a recipe holds.
pub struct RecipeView {
    pub id: Seq<char>,
    pub name: Seq<char>,
    pub author: Seq<char>,
    pub directions: Seq<char>,
    pub information: Seq<char>,
    pub classifications: Classifications,
    pub requirements: Seq<RequirementView>,
    pub dependencies: Seq<DependencyView>,
    pub tags: Seq<EntryView>,
}

/// The envelope around every answer of the service.
#[derive(Debug)]
pub struct Answer<T> {
    pub accept: bool,
    pub error: String,
    pub data: Option<T>,
}

/// The views of the members of a collection, in order.
pub open spec fn views<T: View>(items: Seq<T>) -> Seq<T::V> {
    items.map_values(|item: T| item@)
}

/// No two members of `entries` carry the same identifier.
pub open spec fn distinct_ids(entries: Seq<EntryView>) -> bool {
    forall|i: int, j: int|
        0 <= i < j < entries.len() ==> (#[trigger] entries[i]).id != (#[trigger] entries[j]).id
}

/// One of `items` has the identifier `wanted`, where `id` gives the
/// identifier of an item.
pub open spec fn has_id<V>(items: Seq<V>, id: spec_fn(V) -> Seq<char>, wanted: Seq<char>) -> bool {
    exists|k: int| 0 <= k < items.len() && id(#[trigger] items[k]) == wanted
}

/// `items` without those whose identifier an earlier item has: of the
/// items with one identifier the first stays.
pub open spec fn first_of_each<V>(items: Seq<V>, id: spec_fn(V) -> Seq<char>) -> Seq<V>
    decreases items.len(),
{
    if items.len() == 0 {
        Seq::empty()
    } else {
        let before = first_of_each(items.drop_last(), id);
        if has_id(before, id, id(items.last())) {
            before
        } else {
            before.push(items.last())
        }
    }
}

/// What `first_of_each` keeps has each identifier once.
pub proof fn lemma_first_of_each_distinct<V>(items: Seq<V>, id: spec_fn(V) -> Seq<char>)
    ensures
        forall|a: int, b: int|
            0 <= a < b < first_of_each(items, id).len() ==> id(
                #[trigger] first_of_each(items, id)[a],
            ) != id(#[trigger] first_of_each(items, id)[b]),
    decreases items.len(),
{
    if items.len() > 0 {
        let before = first_of_each(items.drop_last(), id);
        let all = first_of_each(items, id);
        lemma_first_of_each_distinct(items.drop_last(), id);
        assert forall|a: int, b: int| 0 <= a < b < all.len() implies id(#[trigger] all[a]) != id(
            #[trigger] all[b],
        ) by {
            if b < before.len() {
                assert(all[a] == before[a] && all[b] == before[b]);
            } else {
                assert(all[a] == before[a]);
                assert(!has_id(before, id, id(all[b])));
            }
        }
    }
}

impl View for RecipeIndex {
    type V = EntryView;

    open spec fn view(&self) -> EntryView {
        EntryView { id: self.id@, name: self.name@ }
    }
}

impl View for IngredientIndex {
    type V = EntryView;

    open spec fn view(&self) -> EntryView {
        EntryView { id: self.id@, name: self.name@ }
    }
}

impl View for LabelIndex {
    type V = EntryView;

    open spec fn view(&self) -> EntryView {
        EntryView { id: self.id@, name: self.name@ }
    }
}

impl View for Label {
    type V = LabelView;

    open spec fn view(&self) -> LabelView {
        LabelView { id: self.id@, name: self.name@, tagged_recipes: views(self.tagged_recipes@) }
    }
}

impl View for Ingredient {
    type V = IngredientView;

    open spec fn view(&self) -> IngredientView {
        IngredientView {
            id: self.id@,
            name: self.name@,
            classifications: self.classifications,
            used_in: views(self.used_in@),
        }
    }
}

impl View for Requirement {
    type V = RequirementView;

    open spec fn view(&self) -> RequirementView {
        RequirementView {
            ingredient: self.ingredient@,
            quantity: self.quantity@,
            optional: self.optional,
        }
    }
}

impl View for Dependency {
    type V = DependencyView;

    open spec fn view(&self) -> DependencyView {
        DependencyView { recipe: self.recipe@, quantity: self.quantity@, optional: self.optional }
    }
}

impl View for Recipe {
    type V = RecipeView;

    open spec fn view(&self) -> RecipeView {
        RecipeView {
            id: self.id@,
            name: self.name@,
            author: self.author@,
            directions: self.directions@,
            information: self.information@,
            classifications: self.classifications,
            requirements: views(self.requirements@),
            dependencies: views(self.dependencies@),
            tags: views(self.tags@),
        }
    }
}

impl RecipeView {
    /// The ingredients that the requirements name, in order.
    pub open spec fn required(self) -> Seq<EntryView> {
        self.requirements.map_values(|r: RequirementView| r.ingredient)
    }

    /// The recipes that the dependencies name, in order.
    pub open spec fn needed(self) -> Seq<EntryView> {
        self.dependencies.map_values(|d: DependencyView| d.recipe)
    }

    /// The recipe names each ingredient, each recipe and each label once at
    /// most: its requirements, dependencies and tags are sets.
    pub open spec fn refers_once(self) -> bool {
        &&& distinct_ids(self.required())
        &&& distinct_ids(self.needed())
        &&& distinct_ids(self.tags)
    }
}

impl Clone for RecipeIndex {
    fn clone(&self) -> (r: Self)
        ensures
            r == *self,
    {
        RecipeIndex { id: self.id.clone(), name: self.name.clone() }
    }
}

impl Clone for IngredientIndex {
    fn clone(&self) -> (r: Self)
        ensures
            r == *self,
    {
        IngredientIndex { id: self.id.clone(), name: self.name.clone() }
    }
}

impl Clone for LabelIndex {
    fn clone(&self) -> (r: Self)
        ensures
            r == *self,
    {
        LabelIndex { id: self.id.clone(), name: self.name.clone() }
    }
}

impl Clone for Label {
    fn clone(&self) -> (r: Self)
        ensures
            r@ == self@,
            r.id == self.id,
            r.name == self.name,
            r.tagged_recipes@ == self.tagged_recipes@,
    {
        let tagged_recipes = self.tagged_recipes.clone();
        assert(tagged_recipes@ =~= self.tagged_recipes@);
        Label { id: self.id.clone(), name: self.name.clone(), tagged_recipes }
    }
}

impl Clone for Ingredient {
    fn clone(&self) -> (r: Self)
        ensures
            r@ == self@,
            r.id == self.id,
            r.name == self.name,
            r.classifications == self.classifications,
            r.used_in@ == self.used_in@,
    {
        let used_in = self.used_in.clone();
        assert(used_in@ =~= self.used_in@);
        Ingredient {
            id: self.id.clone(),
            name: self.name.clone(),
            classifications: self.classifications,
            used_in,
        }
    }
}

impl Clone for Requirement {
    fn clone(&self) -> (r: Self)
        ensures
            r == *self,
    {
        Requirement {
            ingredient: self.ingredient.clone(),
            quantity: self.quantity.clone(),
            optional: self.optional,
        }
    }
}

impl Clone for Dependency {
    fn clone(&self) -> (r: Self)
        ensures
            r == *self,
    {
        Dependency {
            recipe: self.recipe.clone(),
            quantity: self.quantity.clone(),
            optional: self.optional,
        }
    }
}

impl Clone for Recipe {
    fn clone(&self) -> (r: Self)
        ensures
            r@ == self@,
            r.id == self.id,
            r.name == self.name,
            r.author == self.author,
            r.directions == self.directions,
            r.information == self.information,
            r.classifications == self.classifications,
            r.requirements@ == self.requirements@,
            r.dependencies@ == self.dependencies@,
            r.tags@ == self.tags@,
    {
        let requirements = self.requirements.clone();
        let dependencies = self.dependencies.clone();
        let tags = self.tags.clone();
        assert(requirements@ =~= self.requirements@);
        assert(dependencies@ =~= self.dependencies@);
        assert(tags@ =~= self.tags@);
        Recipe {
            id: self.id.clone(),
            name: self.name.clone(),
            author: self.author.clone(),
            directions: self.directions.clone(),
            information: self.information.clone(),
            classifications: self.classifications,
            requirements,
            dependencies,
            tags,
        }
    }
}

impl PartialEq for RecipeIndex {
    fn eq(&self, other: &Self) -> (r: bool) {
        self.id == other.id
    }
}

impl PartialEqSpecImpl for RecipeIndex {
    open spec fn obeys_eq_spec() -> bool {
        true
    }

    open spec fn eq_spec(&self, other: &Self) -> bool {
        self.id@ == other.id@
    }
}

impl Eq for RecipeIndex {

}

impl PartialEq for IngredientIndex {
    fn eq(&self, other: &Self) -> (r: bool) {
        self.id == other.id
    }
}

impl PartialEqSpecImpl for IngredientIndex {
    open spec fn obeys_eq_spec() -> bool {
        true
    }

    open spec fn eq_spec(&self, other: &Self) -> bool {
        self.id@ == other.id@
    }
}

impl Eq for IngredientIndex {

}

impl PartialEq for LabelIndex {
    fn eq(&self, other: &Self) -> (r: bool) {
        self.id == other.id
    }
}

impl PartialEqSpecImpl for LabelIndex {
    open spec fn obeys_eq_spec() -> bool {
        true
    }

    open spec fn eq_spec(&self, other: &Self) -> bool {
        self.id@ == other.id@
    }
}

impl Eq for LabelIndex {

}

impl PartialEq for Label {
    fn eq(&self, other: &Self) -> (r: bool) {
        self.id == other.id
    }
}

impl PartialEqSpecImpl for Label {
    open spec fn obeys_eq_spec() -> bool {
        true
    }

    open spec fn eq_spec(&self, other: &Self) -> bool {
        self.id@ == other.id@
    }
}

impl Eq for Label {

}

impl PartialEq for Ingredient {
    fn eq(&self, other: &Self) -> (r: bool) {
        self.id == other.id
    }
}

impl PartialEqSpecImpl for Ingredient {
    open spec fn obeys_eq_spec() -> bool {
        true
    }

    open spec fn eq_spec(&self, other: &Self) -> bool {
        self.id@ == other.id@
    }
}

impl Eq for Ingredient {

}

impl PartialEq for Recipe {
    fn eq(&self, other: &Self) -> (r: bool) {
        self.id == other.id
    }
}

impl PartialEqSpecImpl for Recipe {
    open spec fn obeys_eq_spec() -> bool {
        true
    }

    open spec fn eq_spec(&self, other: &Self) -> bool {
        self.id@ == other.id@
    }
}

impl Eq for Recipe {

}

impl PartialEq for Requirement {
    fn eq(&self, other: &Self) -> (r: bool) {
        self.ingredient.id == other.ingredient.id
    }
}

impl PartialEqSpecImpl for Requirement {
    open spec fn obeys_eq_spec() -> bool {
        true
    }

    open spec fn eq_spec(&self, other: &Self) -> bool {
        self.ingredient.id@ == other.ingredient.id@
    }
}

impl Eq for Requirement {

}

impl PartialEq for Dependency {
    fn eq(&self, other: &Self) -> (r: bool) {
        self.recipe.id == other.recipe.id
    }
}

impl PartialEqSpecImpl for Dependency {
    open spec fn obeys_eq_spec() -> bool {
        true
    }

    open spec fn eq_spec(&self, other: &Self) -> bool {
        self.recipe.id@ == other.recipe.id@
    }
}

impl Eq for Dependency {

}

impl Default for Classifications {
    fn default() -> (r: Self)
        ensures
            !r.dairy && !r.meat && !r.gluten && !r.animal_product,
    {
        Classifications { dairy: false, meat: false, gluten: false, animal_product: false }
    }
}

impl Default for RecipeIndex {
    fn default() -> (r: Self)
        ensures
            r@ == (EntryView { id: Seq::empty(), name: Seq::empty() }),
    {
        RecipeIndex { id: String::new(), name: String::new() }
    }
}

impl Default for IngredientIndex {
    fn default() -> (r: Self)
        ensures
            r@ == (EntryView { id: Seq::empty(), name: Seq::empty() }),
    {
        IngredientIndex { id: String::new(), name: String::new() }
    }
}

impl Default for LabelIndex {
    fn default() -> (r: Self)
        ensures
            r@ == (EntryView { id: Seq::empty(), name: Seq::empty() }),
    {
        LabelIndex { id: String::new(), name: String::new() }
    }
}

impl Default for Label {
    fn default() -> (r: Self)
        ensures
            r@ == (LabelView {
                id: Seq::empty(),
                name: Seq::empty(),
                tagged_recipes: Seq::empty(),
            }),
    {
        let r = Label { id: String::new(), name: String::new(), tagged_recipes: Vec::new() };
        assert(r@.tagged_recipes =~= Seq::empty());
        r
    }
}

impl Default for Ingredient {
    fn default() -> (r: Self)
        ensures
            r@.id == Seq::<char>::empty(),
            r@.name == Seq::<char>::empty(),
            r@.classifications == (Classifications {
                dairy: false,
                meat: false,
                gluten: false,
                animal_product: false,
            }),
            r@.used_in == Seq::<EntryView>::empty(),
    {
        let r = Ingredient {
            id: String::new(),
            name: String::new(),
            classifications: Classifications::default(),
            used_in: Vec::new(),
        };
        assert(r@.used_in =~= Seq::empty());
        r
    }
}

impl Default for Requirement {
    fn default() -> (r: Self)
        ensures
            r@ == (RequirementView {
                ingredient: EntryView { id: Seq::empty(), name: Seq::empty() },
                quantity: Seq::empty(),
                optional: false,
            }),
    {
        Requirement {
            ingredient: IngredientIndex::default(),
            quantity: String::new(),
            optional: false,
        }
    }
}

impl Default for Dependency {
    fn default() -> (r: Self)
        ensures
            r@ == (DependencyView {
                recipe: EntryView { id: Seq::empty(), name: Seq::empty() },
                quantity: Seq::empty(),
                optional: false,
            }),
    {
        Dependency { recipe: RecipeIndex::default(), quantity: String::new(), optional: false }
    }
}

impl Default for Recipe {
    fn default() -> (r: Self)
        ensures
            r@.id == Seq::<char>::empty(),
            r@.name == Seq::<char>::empty(),
            r@.author == Seq::<char>::empty(),
            r@.directions == Seq::<char>::empty(),
            r@.information == Seq::<char>::empty(),
            r@.classifications == (Classifications {
                dairy: false,
                meat: false,
                gluten: false,
                animal_product: false,
            }),
            r@.requirements == Seq::<RequirementView>::empty(),
            r@.dependencies == Seq::<DependencyView>::empty(),
            r@.tags == Seq::<EntryView>::empty(),
    {
        let r = Recipe {
            id: String::new(),
            name: String::new(),
            author: String::new(),
            directions: String::new(),
            information: String::new(),
            classifications: Classifications::default(),
            requirements: Vec::new(),
            dependencies: Vec::new(),
            tags: Vec::new(),
        };
        assert(r@.requirements =~= Seq::empty());
        assert(r@.dependencies =~= Seq::empty());
        assert(r@.tags =~= Seq::empty());
        r
    }
}

/// A record of the service: it has an identifier, which says which entity it
/// is, and a display name.
pub trait Record: View + Sized {
    /// The identifier.
    spec fn key(&self) -> Seq<char>;

    /// The display name.
    spec fn label(&self) -> Seq<char>;

    fn id(&self) -> (id: &String)
        ensures
            id@ == self.key(),
    ;

    fn name(&self) -> (name: &String)
        ensures
            name@ == self.label(),
    ;

    /// A copy of the record.
    fn duplicate(&self) -> (copy: Self)
        ensures
            copy@ == self@,
            copy.key() == self.key(),
            copy.label() == self.label(),
    ;
}

/// The names of a list of records, in order.
pub open spec fn record_names<I: Record>(records: Seq<I>) -> Seq<Seq<char>> {
    records.map_values(|record: I| record.label())
}

/// A record that lists the recipes that refer to it. The service keeps that
/// list; a record that was just created lists none.
pub trait Referenced: Record {
    /// How many recipes refer to the record.
    spec fn references(&self) -> nat;

    fn reference_count(&self) -> (count: usize)
        ensures
            count == self.references(),
    ;
}

impl Record for RecipeIndex {
    open spec fn key(&self) -> Seq<char> {
        self.id@
    }

    open spec fn label(&self) -> Seq<char> {
        self.name@
    }

    fn id(&self) -> (id: &String) {
        &self.id
    }

    fn name(&self) -> (name: &String) {
        &self.name
    }

    fn duplicate(&self) -> (copy: Self) {
        self.clone()
    }
}

impl Record for IngredientIndex {
    open spec fn key(&self) -> Seq<char> {
        self.id@
    }

    open spec fn label(&self) -> Seq<char> {
        self.name@
    }

    fn id(&self) -> (id: &String) {
        &self.id
    }

    fn name(&self) -> (name: &String) {
        &self.name
    }

    fn duplicate(&self) -> (copy: Self) {
        self.clone()
    }
}

impl Record for LabelIndex {
    open spec fn key(&self) -> Seq<char> {
        self.id@
    }

    open spec fn label(&self) -> Seq<char> {
        self.name@
    }

    fn id(&self) -> (id: &String) {
        &self.id
    }

    fn name(&self) -> (name: &String) {
        &self.name
    }

    fn duplicate(&self) -> (copy: Self) {
        self.clone()
    }
}

impl Record for Label {
    open spec fn key(&self) -> Seq<char> {
        self.id@
    }

    open spec fn label(&self) -> Seq<char> {
        self.name@
    }

    fn id(&self) -> (id: &String) {
        &self.id
    }

    fn name(&self) -> (name: &String) {
        &self.name
    }

    fn duplicate(&self) -> (copy: Self) {
        self.clone()
    }
}

impl Record for Ingredient {
    open spec fn key(&self) -> Seq<char> {
        self.id@
    }

    open spec fn label(&self) -> Seq<char> {
        self.name@
    }

    fn id(&self) -> (id: &String) {
        &self.id
    }

    fn name(&self) -> (name: &String) {
        &self.name
    }

    fn duplicate(&self) -> (copy: Self) {
        self.clone()
    }
}

impl Record for Recipe {
    open spec fn key(&self) -> Seq<char> {
        self.id@
    }

    open spec fn label(&self) -> Seq<char> {
        self.name@
    }

    fn id(&self) -> (id: &String) {
        &self.id
    }

    fn name(&self) -> (name: &String) {
        &self.name
    }

    fn duplicate(&self) -> (copy: Self) {
        self.clone()
    }
}

impl Referenced for Ingredient {
    open spec fn references(&self) -> nat {
        self.used_in@.len()
    }

    fn reference_count(&self) -> (count: usize) {
        self.used_in.len()
    }
}

impl Referenced for Label {
    open spec fn references(&self) -> nat {
        self.tagged_recipes@.len()
    }

    fn reference_count(&self) -> (count: usize) {
        self.tagged_recipes.len()
    }
}

} // verus!
