use ladle::gateway::{
    delete, dependency_create, dependency_delete, dependency_edit, get, ingredient_create,
    ingredient_delete, ingredient_get, ingredient_index, ingredient_update, label_create,
    label_delete, label_get, label_index, label_update, post, put, recipe_create, recipe_delete,
    recipe_get, recipe_get_requirements, recipe_index, recipe_tag, recipe_untag, recipe_update,
    requirement_create, requirement_delete, requirement_update, Field, GatewayError, Method,
    Request, Value,
};
use ladle::models::{Answer, IngredientIndex};

fn wire_text(name: &str, value: &str) -> Field {
    Field { name: name.to_string(), value: Value::Text(value.to_string()) }
}

fn wire_flag(name: &str, value: bool) -> Field {
    Field { name: name.to_string(), value: Value::Flag(value) }
}

fn wire_request(method: Method, endpoint: &str, params: Vec<Field>) -> Request {
    Request { method, endpoint: endpoint.to_string(), params }
}

fn wire_answer<T>(error: &str, data: Option<T>) -> Answer<T> {
    Answer { accept: data.is_some(), error: error.to_string(), data }
}

#[test]
fn listings_put_the_pattern_in_the_query() {
    assert_eq!(
        recipe_index("http://h", "tar"),
        wire_request(Method::Get, "http://h/recipes?name=tar", vec![])
    );
    assert_eq!(
        ingredient_index("http://h", ""),
        wire_request(Method::Get, "http://h/ingredients?name=", vec![])
    );
    assert_eq!(
        label_index("http://h", "été"),
        wire_request(Method::Get, "http://h/labels?name=été", vec![])
    );
}

#[test]
fn lookups_put_the_identifier_in_the_path() {
    assert_eq!(recipe_get("u", "r1"), wire_request(Method::Get, "u/recipes/r1", vec![]));
    assert_eq!(ingredient_get("u", "i1"), wire_request(Method::Get, "u/ingredients/i1", vec![]));
    assert_eq!(label_get("u", "l1"), wire_request(Method::Get, "u/labels/l1", vec![]));
    assert_eq!(
        recipe_get_requirements("u", "r1"),
        wire_request(Method::Get, "u/recipes/r1/requirements", vec![])
    );
}

#[test]
fn deletions_carry_no_body() {
    assert_eq!(recipe_delete("u", "r1"), wire_request(Method::Delete, "u/recipes/r1", vec![]));
    assert_eq!(
        ingredient_delete("u", "i1"),
        wire_request(Method::Delete, "u/ingredients/i1", vec![])
    );
    assert_eq!(label_delete("u", "l1"), wire_request(Method::Delete, "u/labels/l1", vec![]));
    assert_eq!(
        dependency_delete("u", "r1", "r2"),
        wire_request(Method::Delete, "u/recipes/r1/dependencies/r2", vec![])
    );
    assert_eq!(
        requirement_delete("u", "r1", "i2"),
        wire_request(Method::Delete, "u/recipes/r1/requirements/i2", vec![])
    );
    assert_eq!(
        recipe_untag("u", "r1", "l2"),
        wire_request(Method::Delete, "u/recipes/r1/tags/l2", vec![])
    );
}

#[test]
fn recipe_creation_carries_the_four_texts() {
    assert_eq!(
        recipe_create("u", "Tarte", "Ann", "Bake.", "Serves 4"),
        wire_request(
            Method::Post,
            "u/recipes/new",
            vec![
                wire_text("name", "Tarte"),
                wire_text("author", "Ann"),
                wire_text("directions", "Bake."),
                wire_text("information", "Serves 4"),
            ]
        )
    );
}

#[test]
fn ingredient_creation_carries_the_flags() {
    assert_eq!(
        ingredient_create("u", "Lait", true, false, false, true),
        wire_request(
            Method::Post,
            "u/ingredients/new",
            vec![
                wire_text("name", "Lait"),
                wire_flag("dairy", true),
                wire_flag("meat", false),
                wire_flag("gluten", false),
                wire_flag("animal_product", true),
            ]
        )
    );
}

#[test]
fn label_creation_and_renaming() {
    assert_eq!(
        label_create("u", "hiver"),
        wire_request(Method::Post, "u/labels/new", vec![wire_text("name", "hiver")])
    );
    assert_eq!(
        label_update("u", "l1", "été"),
        wire_request(Method::Put, "u/labels/l1", vec![wire_text("name", "été")])
    );
}

#[test]
fn attaching_to_a_recipe() {
    assert_eq!(
        recipe_tag("u", "r1", "hiver"),
        wire_request(Method::Post, "u/recipes/r1/tags/add", vec![wire_text("name", "hiver")])
    );
    assert_eq!(
        requirement_create("u", "r1", "i7", "200 g", true),
        wire_request(
            Method::Post,
            "u/recipes/r1/requirements/add",
            vec![
                wire_text("quantity", "200 g"),
                wire_flag("optional", true),
                wire_text("ingredient_id", "i7"),
            ]
        )
    );
    assert_eq!(
        dependency_create("u", "r1", "r9", "1", false),
        wire_request(
            Method::Post,
            "u/recipes/r1/dependencies/add",
            vec![
                wire_text("requisite", "r9"),
                wire_text("quantity", "1"),
                wire_flag("optional", false),
            ]
        )
    );
}

#[test]
fn updates_carry_only_what_is_given() {
    assert_eq!(
        recipe_update("u", "r1", None, None, None, None),
        wire_request(Method::Put, "u/recipes/r1", vec![])
    );
    assert_eq!(
        recipe_update("u", "r1", Some("N"), None, Some("D"), None),
        wire_request(
            Method::Put,
            "u/recipes/r1",
            vec![wire_text("name", "N"), wire_text("directions", "D")]
        )
    );
    assert_eq!(
        recipe_update("u", "r1", Some("N"), Some("A"), Some("D"), Some("I")),
        wire_request(
            Method::Put,
            "u/recipes/r1",
            vec![
                wire_text("name", "N"),
                wire_text("author", "A"),
                wire_text("directions", "D"),
                wire_text("information", "I"),
            ]
        )
    );
    assert_eq!(
        ingredient_update("u", "i1", None, Some(true), None, Some(false), None),
        wire_request(
            Method::Put,
            "u/ingredients/i1",
            vec![wire_flag("dairy", true), wire_flag("gluten", false)]
        )
    );
    assert_eq!(
        ingredient_update("u", "i1", Some("Riz"), None, Some(false), None, Some(true)),
        wire_request(
            Method::Put,
            "u/ingredients/i1",
            vec![
                wire_text("name", "Riz"),
                wire_flag("meat", false),
                wire_flag("animal_product", true),
            ]
        )
    );
    assert_eq!(
        dependency_edit("u", "r1", "r2", Some("3"), None),
        wire_request(Method::Put, "u/recipes/r1/dependencies/r2", vec![wire_text("quantity", "3")])
    );
    assert_eq!(
        dependency_edit("u", "r1", "r2", None, Some(true)),
        wire_request(Method::Put, "u/recipes/r1/dependencies/r2", vec![wire_flag(
            "optional", true
        )])
    );
    assert_eq!(
        requirement_update("u", "r1", "i2", Some("1 kg"), Some(false)),
        wire_request(
            Method::Put,
            "u/recipes/r1/requirements/i2",
            vec![wire_text("quantity", "1 kg"), wire_flag("optional", false)]
        )
    );
}

#[test]
fn get_delivers_the_record_on_ok_only() {
    assert_eq!(get(200, wire_answer("", Some(7u32))), Ok(7));
    assert_eq!(get::<u32>(200, wire_answer("", None)), Err(GatewayError::Unreadable));
    assert_eq!(
        get(404, wire_answer("no such recipe", Some(7u32))),
        Err(GatewayError::Server { status: 404, error: "no such recipe".to_string() })
    );
    assert_eq!(
        get::<u32>(201, wire_answer("odd", None)),
        Err(GatewayError::Server { status: 201, error: "odd".to_string() })
    );
}

#[test]
fn post_takes_a_conflict_for_the_existing_record() {
    assert_eq!(post(200, wire_answer("", Some(1u32))), Ok(1));
    assert_eq!(post(201, wire_answer("", Some(2u32))), Ok(2));
    assert_eq!(post(409, wire_answer("exists", Some(3u32))), Ok(3));
    assert_eq!(post::<u32>(200, wire_answer("", None)), Ok(0));
    assert_eq!(post::<u32>(201, wire_answer("", None)), Ok(0));
    assert_eq!(
        post::<u32>(409, wire_answer("exists", None)),
        Err(GatewayError::Server { status: 409, error: "exists".to_string() })
    );
    assert_eq!(
        post(202, wire_answer("later", Some(3u32))),
        Err(GatewayError::Server { status: 202, error: "later".to_string() })
    );
    assert_eq!(
        post(500, wire_answer("boom", Some(3u32))),
        Err(GatewayError::Server { status: 500, error: "boom".to_string() })
    );
}

#[test]
fn post_without_a_record_gives_the_default_record() {
    let created = post::<IngredientIndex>(201, wire_answer("", None)).unwrap();
    assert_eq!(created.id, "");
    assert_eq!(created.name, "");
}

#[test]
fn put_also_takes_accepted() {
    assert_eq!(put(200, wire_answer("", Some(1u32))), Ok(1));
    assert_eq!(put(201, wire_answer("", Some(2u32))), Ok(2));
    assert_eq!(put(202, wire_answer("", Some(3u32))), Ok(3));
    assert_eq!(put(409, wire_answer("", Some(4u32))), Ok(4));
    assert_eq!(put::<u32>(202, wire_answer("", None)), Ok(0));
    assert_eq!(put::<()>(200, wire_answer("", None)), Ok(()));
    assert_eq!(
        put::<u32>(409, wire_answer("taken", None)),
        Err(GatewayError::Server { status: 409, error: "taken".to_string() })
    );
    assert_eq!(
        put(400, wire_answer("bad", Some(4u32))),
        Err(GatewayError::Server { status: 400, error: "bad".to_string() })
    );
}

#[test]
fn delete_is_done_on_ok_only() {
    assert_eq!(delete(200, wire_answer("", None)), Ok(()));
    assert_eq!(delete(200, wire_answer("ignored", Some(()))), Ok(()));
    assert_eq!(
        delete(404, wire_answer("gone", None)),
        Err(GatewayError::Server { status: 404, error: "gone".to_string() })
    );
    assert_eq!(
        delete(201, wire_answer("", None)),
        Err(GatewayError::Server { status: 201, error: String::new() })
    );
}

#[test]
fn errors_describe_themselves() {
    assert_eq!(
        GatewayError::Server { status: 404, error: "no such recipe".to_string() }.describe(),
        "Server returned an error: [404] no such recipe"
    );
    assert_eq!(
        GatewayError::Server { status: 0, error: String::new() }.describe(),
        "Server returned an error: [0] "
    );
    assert_eq!(
        GatewayError::Server { status: 65535, error: "x".to_string() }.describe(),
        "Server returned an error: [65535] x"
    );
    assert_eq!(
        GatewayError::Unreadable.describe(),
        "Internal error: Failed to interpret the server's response"
    );
}
