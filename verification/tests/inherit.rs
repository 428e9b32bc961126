use solidate::inherit::{merge_settings, resolve_first, Json};

#[test]
fn nearest_definition_wins() {
    let chain = ["child", "parent", "root"];
    let found = resolve_first(&chain, |p| if *p != "child" { Some(format!("from {p}")) } else { None });
    assert_eq!(found, Some((1, "from parent".to_owned())));
}

#[test]
fn nothing_defined_anywhere() {
    let chain = ["child", "root"];
    assert_eq!(resolve_first(&chain, |_| None::<u8>), None);
    let empty: [&str; 0] = [];
    assert_eq!(resolve_first(&empty, |_| Some(1)), None);
    assert_eq!(resolve_first(&chain, |_| Some(7)), Some((0, 7)));
}

fn text(x: &str) -> String {
    x.to_string()
}

fn obj(entries: Vec<(&str, Json)>) -> Json {
    Json::Object(entries.into_iter().map(|(k, v)| (text(k), v)).collect())
}

#[test]
fn settings_merge_down() {
    let root = obj(vec![
        ("brand", obj(vec![("color", Json::Str(text("blue"))), ("logo", Json::Str(text("r.svg")))])),
        ("rules", Json::Array(vec![Json::Str(text("a"))])),
        ("x", Json::Number(text("1"))),
    ]);
    let child = obj(vec![
        ("brand", obj(vec![("color", Json::Str(text("red")))])),
        ("rules", Json::Array(vec![Json::Str(text("b"))])),
        ("x", Json::Null),
    ]);
    assert_eq!(
        merge_settings(&[root, child]),
        obj(vec![
            ("brand", obj(vec![("color", Json::Str(text("red"))), ("logo", Json::Str(text("r.svg")))])),
            ("rules", Json::Array(vec![Json::Str(text("b"))])),
        ])
    );
}

#[test]
fn merge_of_no_layers_is_an_empty_object() {
    assert_eq!(merge_settings(&[]), obj(vec![]));
}

#[test]
fn keys_only_one_side_names_survive_in_order() {
    let root = obj(vec![("a", Json::Bool(true)), ("m", Json::Number(text("2")))]);
    let mid = obj(vec![("b", Json::Str(text("mid"))), ("z", Json::Null)]);
    let child = obj(vec![("c", obj(vec![("deep", Json::Null)])), ("m", Json::Null)]);
    assert_eq!(
        merge_settings(&[root, mid, child]),
        obj(vec![
            ("a", Json::Bool(true)),
            ("b", Json::Str(text("mid"))),
            ("c", obj(vec![("deep", Json::Null)])),
        ])
    );
}

#[test]
fn a_child_that_is_not_an_object_replaces_everything() {
    let root = obj(vec![("a", Json::Bool(true))]);
    assert_eq!(merge_settings(&[root, Json::Bool(false)]), Json::Bool(false));
    let arr = Json::Array(vec![Json::Number(text("1"))]);
    assert_eq!(merge_settings(&[obj(vec![]), arr.duplicate()]), arr);
}

#[test]
fn nested_objects_merge_key_by_key() {
    let root = obj(vec![("brand", obj(vec![("a", obj(vec![("x", Json::Number(text("1"))), ("y", Json::Number(text("2")))]))]))]);
    let child = obj(vec![("brand", obj(vec![("a", obj(vec![("y", Json::Null), ("z", Json::Number(text("3")))]))]))]);
    assert_eq!(
        merge_settings(&[root, child]),
        obj(vec![("brand", obj(vec![("a", obj(vec![("x", Json::Number(text("1"))), ("z", Json::Number(text("3")))]))]))])
    );
}

#[test]
fn lookup_is_called_in_order_up_to_the_first_hit() {
    let chain = ["child", "parent", "root"];
    let mut seen = Vec::new();
    let found = resolve_first(&chain, |p: &&str| {
        seen.push(*p);
        if *p == "parent" { Some(1) } else { None }
    });
    assert_eq!(found, Some((1, 1)));
    assert_eq!(seen, ["child", "parent"]);
    let mut all = Vec::new();
    assert_eq!(resolve_first(&chain, |p: &&str| {
        all.push(*p);
        None::<u8>
    }), None);
    assert_eq!(all, ["child", "parent", "root"]);
}
