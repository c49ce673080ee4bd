use torchrust::json_merge::{merge_json, JsonDoc, JsonNode};

fn object(members: &[(&[&str], Option<&str>)]) -> JsonDoc {
    let mut d = JsonDoc::object();
    for (path, leaf) in members {
        let p: Vec<String> = path.iter().map(|k| k.to_string()).collect();
        let node = match leaf {
            Some(text) => JsonNode::Leaf(serde_json::from_str(text).unwrap()),
            None => JsonNode::Object,
        };
        d.set_member(p, node);
    }
    d
}

fn describe(d: JsonDoc) -> (Option<String>, Vec<(String, String)>) {
    let (root, members) = d.into_parts();
    let mut out: Vec<(String, String)> = members
        .into_iter()
        .map(|m| {
            let node = match m.node {
                JsonNode::Object => "{}".to_string(),
                JsonNode::Leaf(v) => v.to_string(),
            };
            (m.path.join("."), node)
        })
        .collect();
    out.sort();
    (root.map(|v| v.to_string()), out)
}

#[test]
fn patch_members_replace_and_merge() {
    let base = object(&[
        (&["locale"], Some("\"ko\"")),
        (&["ui"], None),
        (&["ui", "opacity"], Some("1.0")),
        (&["ui", "theme"], Some("\"dark\"")),
        (&["tax"], Some("0")),
    ]);
    let patch = object(&[(&["ui"], None), (&["ui", "opacity"], Some("0.5")), (&["tax"], Some("1"))]);
    let merged = describe(merge_json(base, patch));
    assert_eq!(merged.0, None);
    assert_eq!(
        merged.1,
        vec![
            ("locale".to_string(), "\"ko\"".to_string()),
            ("tax".to_string(), "1".to_string()),
            ("ui".to_string(), "{}".to_string()),
            ("ui.opacity".to_string(), "0.5".to_string()),
            ("ui.theme".to_string(), "\"dark\"".to_string()),
        ]
    );
}

#[test]
fn leaf_in_patch_replaces_subtree() {
    let base = object(&[(&["ui"], None), (&["ui", "theme"], Some("\"dark\""))]);
    let patch = object(&[(&["ui"], Some("null"))]);
    let merged = describe(merge_json(base, patch));
    assert_eq!(merged.1, vec![("ui".to_string(), "null".to_string())]);
}

#[test]
fn object_in_patch_replaces_leaf() {
    let base = object(&[(&["ui"], Some("3"))]);
    let patch = object(&[(&["ui"], None), (&["ui", "a"], Some("[1,2]"))]);
    let merged = describe(merge_json(base, patch));
    assert_eq!(
        merged.1,
        vec![("ui".to_string(), "{}".to_string()), ("ui.a".to_string(), "[1,2]".to_string())]
    );
}

#[test]
fn non_object_patch_replaces_base() {
    let base = object(&[(&["a"], Some("1"))]);
    let patch = JsonDoc::leaf(serde_json::from_str("[1]").unwrap());
    let merged = describe(merge_json(base, patch));
    assert_eq!(merged, (Some("[1]".to_string()), vec![]));
    let base2 = JsonDoc::leaf(serde_json::from_str("7").unwrap());
    let patch2 = object(&[(&["a"], Some("1"))]);
    assert_eq!(describe(merge_json(base2, patch2)).1, vec![("a".to_string(), "1".to_string())]);
}

#[test]
fn merging_a_document_into_itself_changes_nothing() {
    let mk = || object(&[(&["a"], None), (&["a", "b"], Some("true")), (&["c"], Some("\"x\""))]);
    assert_eq!(describe(merge_json(mk(), mk())), describe(mk()));
}

#[test]
fn set_member_replaces() {
    let mut d = JsonDoc::object();
    d.set_member(vec!["a".to_string()], JsonNode::Leaf(serde_json::from_str("1").unwrap()));
    d.set_member(vec!["a".to_string()], JsonNode::Leaf(serde_json::from_str("2").unwrap()));
    assert_eq!(describe(d).1, vec![("a".to_string(), "2".to_string())]);
}
