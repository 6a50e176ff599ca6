//! The wire protocol of the recipe service.
//!
//! Nothing here touches the network. Each operation of the service is a
//! function that describes the request to send; `get`, `post`, `put` and
//! `delete` say what an answer of the service means. Sending a request and
//! decoding the answer's body is the caller's part.

use crate::models::Answer;
use vstd::prelude::*;
use vstd::string::StringExecFns;

verus! {

/// The verb of a request.
#[derive(Debug, Clone, Copy, PartialEq, Eq, Structural)]
pub enum Method {
    Get,
    Post,
    Put,
    Delete,
}

/// A value in the body of a request.
#[derive(Debug, PartialEq, Eq)]
pub enum Value {
    Text(String),
    Flag(bool),
}

/// What a value in the body of a request holds.
pub enum ValueView {
    Text(Seq<char>),
    Flag(bool),
}

/// A named value in the body of a request.
#[derive(Debug, PartialEq, Eq)]
pub struct Field {
    pub name: String,
    pub value: Value,
}

/// What a field of a request body holds.
pub struct FieldView {
    pub name: Seq<char>,
    pub value: ValueView,
}

/// A request to the service: where to send it, how, and the fields of its
/// body. Only `Post` and `Put` requests carry fields.
#[derive(Debug, PartialEq, Eq)]
pub struct Request {
    pub method: Method,
    pub endpoint: String,
    pub params: Vec<Field>,
}

/// What a request asks for.
pub struct RequestView {
    pub method: Method,
    pub endpoint: Seq<char>,
    pub params: Seq<FieldView>,
}

/// Why the service did not deliver.
#[derive(Debug, PartialEq, Eq)]
pub enum GatewayError {
    /// The service answered with a status that reports a failure.
    Server { status: u16, error: String },
    /// The service reported success and sent nothing to read.
    Unreadable,
}

/// What an error of the service holds.
pub enum GatewayErrorView {
    Server { status: u16, error: Seq<char> },
    Unreadable,
}

/// The status of an answer that delivers.
pub const OK: u16 = 200;

/// The status of an answer to a creation that went through.
pub const CREATED: u16 = 201;

/// The status of an answer to a change that was taken.
pub const ACCEPTED: u16 = 202;

/// The status of an answer to a creation of what exists already.
pub const CONFLICT: u16 = 409;

impl View for Value {
    type V = ValueView;

    open spec fn view(&self) -> ValueView {
        match self {
            Value::Text(text) => ValueView::Text(text@),
            Value::Flag(flag) => ValueView::Flag(*flag),
        }
    }
}

impl View for Field {
    type V = FieldView;

    open spec fn view(&self) -> FieldView {
        FieldView { name: self.name@, value: self.value@ }
    }
}

impl View for Request {
    type V = RequestView;

    open spec fn view(&self) -> RequestView {
        RequestView {
            method: self.method,
            endpoint: self.endpoint@,
            params: self.params@.map_values(|f: Field| f@),
        }
    }
}

impl View for GatewayError {
    type V = GatewayErrorView;

    open spec fn view(&self) -> GatewayErrorView {
        match self {
            GatewayError::Server { status, error } => GatewayErrorView::Server {
                status: *status,
                error: error@,
            },
            GatewayError::Unreadable => GatewayErrorView::Unreadable,
        }
    }
}

/// A text field of a request body.
pub open spec fn text(name: Seq<char>, value: Seq<char>) -> FieldView {
    FieldView { name, value: ValueView::Text(value) }
}

/// A yes-or-no field of a request body.
pub open spec fn flag(name: Seq<char>, value: bool) -> FieldView {
    FieldView { name, value: ValueView::Flag(value) }
}

/// The characters of a text that may be absent.
pub open spec fn given(value: Option<&str>) -> Option<Seq<char>> {
    match value {
        Some(value) => Some(value@),
        None => None,
    }
}

/// The text field that an update carries for a value that may be absent.
pub open spec fn text_if_given(name: Seq<char>, value: Option<Seq<char>>) -> Seq<FieldView> {
    match value {
        Some(value) => seq![text(name, value)],
        None => Seq::empty(),
    }
}

/// The yes-or-no field that an update carries for a value that may be absent.
pub open spec fn flag_if_given(name: Seq<char>, value: Option<bool>) -> Seq<FieldView> {
    match value {
        Some(value) => seq![flag(name, value)],
        None => Seq::empty(),
    }
}

/// A request without a body.
pub open spec fn bare(method: Method, endpoint: Seq<char>) -> RequestView {
    RequestView { method, endpoint, params: Seq::empty() }
}

fn text_field(name: &str, value: &str) -> (field: Field)
    ensures
        field@ == text(name@, value@),
{
    Field { name: String::from_str(name), value: Value::Text(String::from_str(value)) }
}

fn flag_field(name: &str, value: bool) -> (field: Field)
    ensures
        field@ == flag(name@, value),
{
    Field { name: String::from_str(name), value: Value::Flag(value) }
}

fn push_text_if_given(params: &mut Vec<Field>, name: &str, value: Option<&str>)
    ensures
        final(params)@.map_values(|f: Field| f@) == old(params)@.map_values(|f: Field| f@)
            + text_if_given(name@, given(value)),
{
    if let Some(value) = value {
        params.push(text_field(name, value));
    }
    assert(params@.map_values(|f: Field| f@) =~= old(params)@.map_values(|f: Field| f@)
        + text_if_given(name@, given(value)));
}

fn push_flag_if_given(params: &mut Vec<Field>, name: &str, value: Option<bool>)
    ensures
        final(params)@.map_values(|f: Field| f@) == old(params)@.map_values(|f: Field| f@)
            + flag_if_given(name@, value),
{
    if let Some(value) = value {
        params.push(flag_field(name, value));
    }
    assert(params@.map_values(|f: Field| f@) =~= old(params)@.map_values(|f: Field| f@)
        + flag_if_given(name@, value));
}

fn without_body(method: Method, endpoint: String) -> (request: Request)
    ensures
        request@ == bare(method, endpoint@),
{
    let request = Request { method, endpoint, params: Vec::new() };
    assert(request@.params =~= Seq::empty());
    request
}

fn with_body(method: Method, endpoint: String, params: Vec<Field>) -> (request: Request)
    ensures
        request@ == (RequestView {
            method,
            endpoint: endpoint@,
            params: params@.map_values(|f: Field| f@),
        }),
{
    Request { method, endpoint, params }
}

fn join2(a: &str, b: &str) -> (r: String)
    ensures
        r@ == a@ + b@,
{
    let mut r = String::from_str(a);
    r.append(b);
    r
}

fn join3(a: &str, b: &str, c: &str) -> (r: String)
    ensures
        r@ == a@ + b@ + c@,
{
    let mut r = join2(a, b);
    r.append(c);
    r
}

fn join4(a: &str, b: &str, c: &str, d: &str) -> (r: String)
    ensures
        r@ == a@ + b@ + c@ + d@,
{
    let mut r = join3(a, b, c);
    r.append(d);
    r
}

fn join5(a: &str, b: &str, c: &str, d: &str, e: &str) -> (r: String)
    ensures
        r@ == a@ + b@ + c@ + d@ + e@,
{
    let mut r = join4(a, b, c, d);
    r.append(e);
    r
}

/// The request that `recipe_index` describes.
pub open spec fn recipe_index_request(url: Seq<char>, pattern: Seq<char>) -> RequestView {
    bare(Method::Get, url + "/recipes?name="@ + pattern)
}

/// Lists the recipes whose name matches `pattern`.
pub fn recipe_index(url: &str, pattern: &str) -> (request: Request)
    ensures
        request@ == recipe_index_request(url@, pattern@),
{
    without_body(Method::Get, join3(url, "/recipes?name=", pattern))
}

/// The request that `recipe_get` describes.
pub open spec fn recipe_get_request(url: Seq<char>, id: Seq<char>) -> RequestView {
    bare(Method::Get, url + "/recipes/"@ + id)
}

/// Fetches the recipe `id`.
pub fn recipe_get(url: &str, id: &str) -> (request: Request)
    ensures
        request@ == recipe_get_request(url@, id@),
{
    without_body(Method::Get, join3(url, "/recipes/", id))
}

/// The request that `recipe_create` describes.
pub open spec fn recipe_create_request(
    url: Seq<char>,
    name: Seq<char>,
    author: Seq<char>,
    directions: Seq<char>,
    information: Seq<char>,
) -> RequestView {
    RequestView {
        method: Method::Post,
        endpoint: url + "/recipes/new"@,
        params: seq![
            text("name"@, name),
            text("author"@, author),
            text("directions"@, directions),
            text("information"@, information),
        ],
    }
}

/// Creates a recipe.
pub fn recipe_create(
    url: &str,
    name: &str,
    author: &str,
    directions: &str,
    information: &str,
) -> (request: Request)
    ensures
        request@ == recipe_create_request(url@, name@, author@, directions@, information@),
{
    let mut params: Vec<Field> = Vec::new();
    params.push(text_field("name", name));
    params.push(text_field("author", author));
    params.push(text_field("directions", directions));
    params.push(text_field("information", information));
    assert(params@.map_values(|f: Field| f@) =~= seq![
        text("name"@, name@),
        text("author"@, author@),
        text("directions"@, directions@),
        text("information"@, information@),
    ]);
    with_body(Method::Post, join2(url, "/recipes/new"), params)
}

/// The request that `recipe_update` describes.
pub open spec fn recipe_update_request(
    url: Seq<char>,
    id: Seq<char>,
    name: Option<Seq<char>>,
    author: Option<Seq<char>>,
    directions: Option<Seq<char>>,
    information: Option<Seq<char>>,
) -> RequestView {
    RequestView {
        method: Method::Put,
        endpoint: url + "/recipes/"@ + id,
        params: text_if_given("name"@, name) + text_if_given("author"@, author)
            + text_if_given("directions"@, directions) + text_if_given(
            "information"@,
            information,
        ),
    }
}

/// Changes the fields of the recipe `id` that are given; the others stay.
pub fn recipe_update(
    url: &str,
    id: &str,
    name: Option<&str>,
    author: Option<&str>,
    directions: Option<&str>,
    information: Option<&str>,
) -> (request: Request)
    ensures
        request@ == recipe_update_request(
            url@,
            id@,
            given(name),
            given(author),
            given(directions),
            given(information),
        ),
{
    let mut params: Vec<Field> = Vec::new();
    assert(params@.map_values(|f: Field| f@) =~= Seq::empty());
    push_text_if_given(&mut params, "name", name);
    push_text_if_given(&mut params, "author", author);
    push_text_if_given(&mut params, "directions", directions);
    push_text_if_given(&mut params, "information", information);
    assert(params@.map_values(|f: Field| f@) =~= text_if_given("name"@, given(name))
        + text_if_given("author"@, given(author)) + text_if_given("directions"@, given(directions))
        + text_if_given("information"@, given(information)));
    with_body(Method::Put, join3(url, "/recipes/", id), params)
}

/// The request that `recipe_delete` describes.
pub open spec fn recipe_delete_request(url: Seq<char>, id: Seq<char>) -> RequestView {
    bare(Method::Delete, url + "/recipes/"@ + id)
}

/// Deletes the recipe `id`.
pub fn recipe_delete(url: &str, id: &str) -> (request: Request)
    ensures
        request@ == recipe_delete_request(url@, id@),
{
    without_body(Method::Delete, join3(url, "/recipes/", id))
}

/// The request that `dependency_create` describes.
pub open spec fn dependency_create_request(
    url: Seq<char>,
    id: Seq<char>,
    required_id: Seq<char>,
    quantity: Seq<char>,
    optional: bool,
) -> RequestView {
    RequestView {
        method: Method::Post,
        endpoint: url + "/recipes/"@ + id + "/dependencies/add"@,
        params: seq![
            text("requisite"@, required_id),
            text("quantity"@, quantity),
            flag("optional"@, optional),
        ],
    }
}

/// Makes the recipe `id` depend on the recipe `required_id`.
pub fn dependency_create(
    url: &str,
    id: &str,
    required_id: &str,
    quantity: &str,
    optional: bool,
) -> (request: Request)
    ensures
        request@ == dependency_create_request(url@, id@, required_id@, quantity@, optional),
{
    let mut params: Vec<Field> = Vec::new();
    params.push(text_field("requisite", required_id));
    params.push(text_field("quantity", quantity));
    params.push(flag_field("optional", optional));
    assert(params@.map_values(|f: Field| f@) =~= seq![
        text("requisite"@, required_id@),
        text("quantity"@, quantity@),
        flag("optional"@, optional),
    ]);
    with_body(Method::Post, join4(url, "/recipes/", id, "/dependencies/add"), params)
}

/// The request that `dependency_edit` describes.
pub open spec fn dependency_edit_request(
    url: Seq<char>,
    id: Seq<char>,
    required_id: Seq<char>,
    quantity: Option<Seq<char>>,
    optional: Option<bool>,
) -> RequestView {
    RequestView {
        method: Method::Put,
        endpoint: url + "/recipes/"@ + id + "/dependencies/"@ + required_id,
        params: text_if_given("quantity"@, quantity) + flag_if_given("optional"@, optional),
    }
}

/// Changes what is given of the dependency of the recipe `id` on the recipe
/// `required_id`.
pub fn dependency_edit(
    url: &str,
    id: &str,
    required_id: &str,
    quantity: Option<&str>,
    optional: Option<bool>,
) -> (request: Request)
    ensures
        request@ == dependency_edit_request(
            url@,
            id@,
            required_id@,
            given(quantity),
            optional,
        ),
{
    let mut params: Vec<Field> = Vec::new();
    assert(params@.map_values(|f: Field| f@) =~= Seq::empty());
    push_text_if_given(&mut params, "quantity", quantity);
    push_flag_if_given(&mut params, "optional", optional);
    assert(params@.map_values(|f: Field| f@) =~= text_if_given("quantity"@, given(quantity))
        + flag_if_given("optional"@, optional));
    with_body(Method::Put, join5(url, "/recipes/", id, "/dependencies/", required_id), params)
}

/// The request that `dependency_delete` describes.
pub open spec fn dependency_delete_request(
    url: Seq<char>,
    id: Seq<char>,
    required_id: Seq<char>,
) -> RequestView {
    bare(Method::Delete, url + "/recipes/"@ + id + "/dependencies/"@ + required_id)
}

/// Removes the dependency of the recipe `id` on the recipe `required_id`.
pub fn dependency_delete(url: &str, id: &str, required_id: &str) -> (request: Request)
    ensures
        request@ == dependency_delete_request(url@, id@, required_id@),
{
    without_body(Method::Delete, join5(url, "/recipes/", id, "/dependencies/", required_id))
}

/// The request that `recipe_tag` describes.
pub open spec fn recipe_tag_request(
    url: Seq<char>,
    id: Seq<char>,
    label_name: Seq<char>,
) -> RequestView {
    RequestView {
        method: Method::Post,
        endpoint: url + "/recipes/"@ + id + "/tags/add"@,
        params: seq![text("name"@, label_name)],
    }
}

/// Tags the recipe `id` with the label named `label_name`; the service
/// creates the label if it has none of that name.
pub fn recipe_tag(url: &str, id: &str, label_name: &str) -> (request: Request)
    ensures
        request@ == recipe_tag_request(url@, id@, label_name@),
{
    let mut params: Vec<Field> = Vec::new();
    params.push(text_field("name", label_name));
    assert(params@.map_values(|f: Field| f@) =~= seq![text("name"@, label_name@)]);
    with_body(Method::Post, join4(url, "/recipes/", id, "/tags/add"), params)
}

/// The request that `recipe_untag` describes.
pub open spec fn recipe_untag_request(
    url: Seq<char>,
    id: Seq<char>,
    label_id: Seq<char>,
) -> RequestView {
    bare(Method::Delete, url + "/recipes/"@ + id + "/tags/"@ + label_id)
}

/// Removes the label `label_id` from the recipe `id`.
pub fn recipe_untag(url: &str, id: &str, label_id: &str) -> (request: Request)
    ensures
        request@ == recipe_untag_request(url@, id@, label_id@),
{
    without_body(Method::Delete, join5(url, "/recipes/", id, "/tags/", label_id))
}

/// The request that `recipe_get_requirements` describes.
pub open spec fn recipe_get_requirements_request(url: Seq<char>, id: Seq<char>) -> RequestView {
    bare(Method::Get, url + "/recipes/"@ + id + "/requirements"@)
}

/// Lists the requirements of the recipe `id`.
pub fn recipe_get_requirements(url: &str, id: &str) -> (request: Request)
    ensures
        request@ == recipe_get_requirements_request(url@, id@),
{
    without_body(Method::Get, join4(url, "/recipes/", id, "/requirements"))
}

/// The request that `ingredient_index` describes.
pub open spec fn ingredient_index_request(url: Seq<char>, pattern: Seq<char>) -> RequestView {
    bare(Method::Get, url + "/ingredients?name="@ + pattern)
}

/// Lists the ingredients whose name matches `pattern`.
pub fn ingredient_index(url: &str, pattern: &str) -> (request: Request)
    ensures
        request@ == ingredient_index_request(url@, pattern@),
{
    without_body(Method::Get, join3(url, "/ingredients?name=", pattern))
}

/// The request that `ingredient_get` describes.
pub open spec fn ingredient_get_request(url: Seq<char>, id: Seq<char>) -> RequestView {
    bare(Method::Get, url + "/ingredients/"@ + id)
}

/// Fetches the ingredient `id`.
pub fn ingredient_get(url: &str, id: &str) -> (request: Request)
    ensures
        request@ == ingredient_get_request(url@, id@),
{
    without_body(Method::Get, join3(url, "/ingredients/", id))
}

/// The request that `ingredient_create` describes.
pub open spec fn ingredient_create_request(
    url: Seq<char>,
    name: Seq<char>,
    dairy: bool,
    meat: bool,
    gluten: bool,
    animal_product: bool,
) -> RequestView {
    RequestView {
        method: Method::Post,
        endpoint: url + "/ingredients/new"@,
        params: seq![
            text("name"@, name),
            flag("dairy"@, dairy),
            flag("meat"@, meat),
            flag("gluten"@, gluten),
            flag("animal_product"@, animal_product),
        ],
    }
}

/// Creates an ingredient.
pub fn ingredient_create(
    url: &str,
    name: &str,
    dairy: bool,
    meat: bool,
    gluten: bool,
    animal_product: bool,
) -> (request: Request)
    ensures
        request@ == ingredient_create_request(
            url@,
            name@,
            dairy,
            meat,
            gluten,
            animal_product,
        ),
{
    let mut params: Vec<Field> = Vec::new();
    params.push(text_field("name", name));
    params.push(flag_field("dairy", dairy));
    params.push(flag_field("meat", meat));
    params.push(flag_field("gluten", gluten));
    params.push(flag_field("animal_product", animal_product));
    assert(params@.map_values(|f: Field| f@) =~= seq![
        text("name"@, name@),
        flag("dairy"@, dairy),
        flag("meat"@, meat),
        flag("gluten"@, gluten),
        flag("animal_product"@, animal_product),
    ]);
    with_body(Method::Post, join2(url, "/ingredients/new"), params)
}

/// The request that `ingredient_update` describes.
pub open spec fn ingredient_update_request(
    url: Seq<char>,
    id: Seq<char>,
    name: Option<Seq<char>>,
    dairy: Option<bool>,
    meat: Option<bool>,
    gluten: Option<bool>,
    animal_product: Option<bool>,
) -> RequestView {
    RequestView {
        method: Method::Put,
        endpoint: url + "/ingredients/"@ + id,
        params: text_if_given("name"@, name) + flag_if_given("dairy"@, dairy) + flag_if_given(
            "meat"@,
            meat,
        ) + flag_if_given("gluten"@, gluten) + flag_if_given("animal_product"@, animal_product),
    }
}

/// Changes the fields of the ingredient `id` that are given; the others stay.
pub fn ingredient_update(
    url: &str,
    id: &str,
    name: Option<&str>,
    dairy: Option<bool>,
    meat: Option<bool>,
    gluten: Option<bool>,
    animal_product: Option<bool>,
) -> (request: Request)
    ensures
        request@ == ingredient_update_request(
            url@,
            id@,
            given(name),
            dairy,
            meat,
            gluten,
            animal_product,
        ),
{
    let mut params: Vec<Field> = Vec::new();
    assert(params@.map_values(|f: Field| f@) =~= Seq::empty());
    push_text_if_given(&mut params, "name", name);
    push_flag_if_given(&mut params, "dairy", dairy);
    push_flag_if_given(&mut params, "meat", meat);
    push_flag_if_given(&mut params, "gluten", gluten);
    push_flag_if_given(&mut params, "animal_product", animal_product);
    assert(params@.map_values(|f: Field| f@) =~= text_if_given("name"@, given(name))
        + flag_if_given("dairy"@, dairy) + flag_if_given("meat"@, meat) + flag_if_given(
        "gluten"@,
        gluten,
    ) + flag_if_given("animal_product"@, animal_product));
    with_body(Method::Put, join3(url, "/ingredients/", id), params)
}

/// The request that `ingredient_delete` describes.
pub open spec fn ingredient_delete_request(url: Seq<char>, id: Seq<char>) -> RequestView {
    bare(Method::Delete, url + "/ingredients/"@ + id)
}

/// Deletes the ingredient `id`.
pub fn ingredient_delete(url: &str, id: &str) -> (request: Request)
    ensures
        request@ == ingredient_delete_request(url@, id@),
{
    without_body(Method::Delete, join3(url, "/ingredients/", id))
}

/// The request that `label_index` describes.
pub open spec fn label_index_request(url: Seq<char>, pattern: Seq<char>) -> RequestView {
    bare(Method::Get, url + "/labels?name="@ + pattern)
}

/// Lists the labels whose name matches `pattern`.
pub fn label_index(url: &str, pattern: &str) -> (request: Request)
    ensures
        request@ == label_index_request(url@, pattern@),
{
    without_body(Method::Get, join3(url, "/labels?name=", pattern))
}

/// The request that `label_get` describes.
pub open spec fn label_get_request(url: Seq<char>, id: Seq<char>) -> RequestView {
    bare(Method::Get, url + "/labels/"@ + id)
}

/// Fetches the label `id`.
pub fn label_get(url: &str, id: &str) -> (request: Request)
    ensures
        request@ == label_get_request(url@, id@),
{
    without_body(Method::Get, join3(url, "/labels/", id))
}

/// The request that `label_create` describes.
pub open spec fn label_create_request(url: Seq<char>, name: Seq<char>) -> RequestView {
    RequestView {
        method: Method::Post,
        endpoint: url + "/labels/new"@,
        params: seq![text("name"@, name)],
    }
}

/// Creates a label.
pub fn label_create(url: &str, name: &str) -> (request: Request)
    ensures
        request@ == label_create_request(url@, name@),
{
    let mut params: Vec<Field> = Vec::new();
    params.push(text_field("name", name));
    assert(params@.map_values(|f: Field| f@) =~= seq![text("name"@, name@)]);
    with_body(Method::Post, join2(url, "/labels/new"), params)
}

/// The request that `label_update` describes.
pub open spec fn label_update_request(
    url: Seq<char>,
    id: Seq<char>,
    name: Seq<char>,
) -> RequestView {
    RequestView {
        method: Method::Put,
        endpoint: url + "/labels/"@ + id,
        params: seq![text("name"@, name)],
    }
}

/// Renames the label `id`.
pub fn label_update(url: &str, id: &str, name: &str) -> (request: Request)
    ensures
        request@ == label_update_request(url@, id@, name@),
{
    let mut params: Vec<Field> = Vec::new();
    params.push(text_field("name", name));
    assert(params@.map_values(|f: Field| f@) =~= seq![text("name"@, name@)]);
    with_body(Method::Put, join3(url, "/labels/", id), params)
}

/// The request that `label_delete` describes.
pub open spec fn label_delete_request(url: Seq<char>, id: Seq<char>) -> RequestView {
    bare(Method::Delete, url + "/labels/"@ + id)
}

/// Deletes the label `id`.
pub fn label_delete(url: &str, id: &str) -> (request: Request)
    ensures
        request@ == label_delete_request(url@, id@),
{
    without_body(Method::Delete, join3(url, "/labels/", id))
}

/// The request that `requirement_create` describes.
pub open spec fn requirement_create_request(
    url: Seq<char>,
    recipe_id: Seq<char>,
    ingredient_id: Seq<char>,
    quantity: Seq<char>,
    optional: bool,
) -> RequestView {
    RequestView {
        method: Method::Post,
        endpoint: url + "/recipes/"@ + recipe_id + "/requirements/add"@,
        params: seq![
            text("quantity"@, quantity),
            flag("optional"@, optional),
            text("ingredient_id"@, ingredient_id),
        ],
    }
}

/// Makes the recipe `recipe_id` require the ingredient `ingredient_id`.
pub fn requirement_create(
    url: &str,
    recipe_id: &str,
    ingredient_id: &str,
    quantity: &str,
    optional: bool,
) -> (request: Request)
    ensures
        request@ == requirement_create_request(
            url@,
            recipe_id@,
            ingredient_id@,
            quantity@,
            optional,
        ),
{
    let mut params: Vec<Field> = Vec::new();
    params.push(text_field("quantity", quantity));
    params.push(flag_field("optional", optional));
    params.push(text_field("ingredient_id", ingredient_id));
    assert(params@.map_values(|f: Field| f@) =~= seq![
        text("quantity"@, quantity@),
        flag("optional"@, optional),
        text("ingredient_id"@, ingredient_id@),
    ]);
    with_body(Method::Post, join4(url, "/recipes/", recipe_id, "/requirements/add"), params)
}

/// The request that `requirement_update` describes.
pub open spec fn requirement_update_request(
    url: Seq<char>,
    recipe_id: Seq<char>,
    ingredient_id: Seq<char>,
    quantity: Option<Seq<char>>,
    optional: Option<bool>,
) -> RequestView {
    RequestView {
        method: Method::Put,
        endpoint: url + "/recipes/"@ + recipe_id + "/requirements/"@ + ingredient_id,
        params: text_if_given("quantity"@, quantity) + flag_if_given("optional"@, optional),
    }
}

/// Changes what is given of the requirement of the recipe `recipe_id` for the
/// ingredient `ingredient_id`.
pub fn requirement_update(
    url: &str,
    recipe_id: &str,
    ingredient_id: &str,
    quantity: Option<&str>,
    optional: Option<bool>,
) -> (request: Request)
    ensures
        request@ == requirement_update_request(
            url@,
            recipe_id@,
            ingredient_id@,
            given(quantity),
            optional,
        ),
{
    let mut params: Vec<Field> = Vec::new();
    assert(params@.map_values(|f: Field| f@) =~= Seq::empty());
    push_text_if_given(&mut params, "quantity", quantity);
    push_flag_if_given(&mut params, "optional", optional);
    assert(params@.map_values(|f: Field| f@) =~= text_if_given("quantity"@, given(quantity))
        + flag_if_given("optional"@, optional));
    with_body(
        Method::Put,
        join5(url, "/recipes/", recipe_id, "/requirements/", ingredient_id),
        params,
    )
}

/// The request that `requirement_delete` describes.
pub open spec fn requirement_delete_request(
    url: Seq<char>,
    recipe_id: Seq<char>,
    ingredient_id: Seq<char>,
) -> RequestView {
    bare(Method::Delete, url + "/recipes/"@ + recipe_id + "/requirements/"@ + ingredient_id)
}

/// Removes the requirement of the recipe `recipe_id` for the ingredient `ingredient_id`.
pub fn requirement_delete(url: &str, recipe_id: &str, ingredient_id: &str) -> (request: Request)
    ensures
        request@ == requirement_delete_request(url@, recipe_id@, ingredient_id@),
{
    without_body(
        Method::Delete,
        join5(url, "/recipes/", recipe_id, "/requirements/", ingredient_id),
    )
}

/// What the answer to a `Get` request delivers: the record it carries, when
/// the status is `OK`.
pub fn get<T>(status: u16, answer: Answer<T>) -> (outcome: Result<T, GatewayError>)
    ensures
        match outcome {
            Ok(record) => status == OK && answer.data == Some(record),
            Err(error) => if status == OK {
                answer.data is None && error@ == GatewayErrorView::Unreadable
            } else {
                error@ == (GatewayErrorView::Server { status, error: answer.error@ })
            },
        },
{
    if status == OK {
        match answer.data {
            Some(record) => Ok(record),
            None => Err(GatewayError::Unreadable),
        }
    } else {
        Err(GatewayError::Server { status, error: answer.error })
    }
}

/// Whether a `Post` request with this status went through. A conflict
/// counts: the service then answers with the record that exists already.
pub open spec fn post_delivers(status: u16, has_record: bool) -> bool {
    status == OK || status == CREATED || (status == CONFLICT && has_record)
}

/// What the answer to a `Post` request delivers: the record it carries, or
/// the default record where the service reports success and sends none.
pub fn post<T: Default>(status: u16, answer: Answer<T>) -> (outcome: Result<T, GatewayError>)
    ensures
        match outcome {
            Ok(record) => post_delivers(status, answer.data is Some) && match answer.data {
                Some(sent) => record == sent,
                None => call_ensures(T::default, (), record),
            },
            Err(error) => !post_delivers(status, answer.data is Some) && error@ == (
            GatewayErrorView::Server { status, error: answer.error@ }),
        },
{
    if status == OK || status == CREATED {
        match answer.data {
            Some(record) => Ok(record),
            None => Ok(T::default()),
        }
    } else if status == CONFLICT {
        match answer.data {
            Some(record) => Ok(record),
            None => Err(GatewayError::Server { status, error: answer.error }),
        }
    } else {
        Err(GatewayError::Server { status, error: answer.error })
    }
}

/// Whether a `Put` request with this status went through.
pub open spec fn put_delivers(status: u16, has_record: bool) -> bool {
    status == OK || status == CREATED || status == ACCEPTED || (status == CONFLICT && has_record)
}

/// What the answer to a `Put` request delivers: the record it carries, or
/// the default record where the service reports success and sends none.
pub fn put<T: Default>(status: u16, answer: Answer<T>) -> (outcome: Result<T, GatewayError>)
    ensures
        match outcome {
            Ok(record) => put_delivers(status, answer.data is Some) && match answer.data {
                Some(sent) => record == sent,
                None => call_ensures(T::default, (), record),
            },
            Err(error) => !put_delivers(status, answer.data is Some) && error@ == (
            GatewayErrorView::Server { status, error: answer.error@ }),
        },
{
    if status == OK || status == CREATED || status == ACCEPTED {
        match answer.data {
            Some(record) => Ok(record),
            None => Ok(T::default()),
        }
    } else if status == CONFLICT {
        match answer.data {
            Some(record) => Ok(record),
            None => Err(GatewayError::Server { status, error: answer.error }),
        }
    } else {
        Err(GatewayError::Server { status, error: answer.error })
    }
}

/// What the answer to a `Delete` request means: done, when the status is
/// `OK`.
pub fn delete(status: u16, answer: Answer<()>) -> (outcome: Result<(), GatewayError>)
    ensures
        match outcome {
            Ok(_) => status == OK,
            Err(error) => status != OK && error@ == (GatewayErrorView::Server {
                status,
                error: answer.error@,
            }),
        },
{
    if status == OK {
        Ok(())
    } else {
        Err(GatewayError::Server { status, error: answer.error })
    }
}

} // verus!
