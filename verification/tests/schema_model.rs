use revql::schema::{Field, Schema, Type, TypeRef};
use revql::text::{str_contains, str_ends_with, str_eq};

fn ty(name: &str, kind: &str, fields: Option<Vec<Field>>) -> Type {
    Type { name: name.to_string(), kind: kind.to_string(), fields }
}

fn named_ref(name: &str, kind: &str) -> TypeRef {
    TypeRef { name: Some(name.to_string()), kind: kind.to_string(), of_type: None }
}

fn fld(name: &str, ty: &str) -> Field {
    Field { name: name.to_string(), field_type: named_ref(ty, "OBJECT") }
}

fn fld_scalar(name: &str, ty: &str) -> Field {
    Field { name: name.to_string(), field_type: named_ref(ty, "SCALAR") }
}

#[test]
fn type_is_object_checks_kind() {
    assert!(ty("User", "OBJECT", None).is_object());
    assert!(!ty("ID", "SCALAR", None).is_object());
    assert!(!ty("Role", "ENUM", None).is_object());
}

#[test]
fn connection_with_both_fields_is_relay() {
    let t = ty(
        "UserConnection",
        "OBJECT",
        Some(vec![fld("edges", "UserEdge"), fld("pageInfo", "PageInfo")]),
    );
    assert!(t.is_relay());
}

#[test]
fn connection_missing_page_info_is_not_relay() {
    let t = ty("UserConnection", "OBJECT", Some(vec![fld("edges", "UserEdge")]));
    assert!(!t.is_relay());
}

#[test]
fn page_info_with_flags_is_relay() {
    let t = ty(
        "PageInfo",
        "OBJECT",
        Some(vec![
            fld_scalar("hasNextPage", "Boolean"),
            fld_scalar("hasPreviousPage", "Boolean"),
        ]),
    );
    assert!(t.is_relay());
}

#[test]
fn edge_with_cursor_and_node_is_relay() {
    let t = ty(
        "UserEdge",
        "OBJECT",
        Some(vec![fld_scalar("cursor", "String"), fld("node", "User")]),
    );
    assert!(t.is_relay());
}

#[test]
fn plain_type_is_not_relay() {
    let t = ty("User", "OBJECT", Some(vec![fld_scalar("id", "ID")]));
    assert!(!t.is_relay());
    assert!(!ty("User", "OBJECT", None).is_relay());
}

#[test]
fn get_field_exact_match() {
    let t = ty("User", "OBJECT", Some(vec![fld("posts", "Post"), fld("post", "Post")]));
    let f = t.get_field("post", false).expect("field");
    assert_eq!(f.name, "post");
    assert!(t.get_field("missing", false).is_none());
}

#[test]
fn get_field_containing_takes_first_in_declaration_order() {
    let t = ty("User", "OBJECT", Some(vec![fld("posts", "Post"), fld("post", "Post")]));
    let f = t.get_field("post", true).expect("field");
    assert_eq!(f.name, "posts");
}

#[test]
fn get_field_on_fieldless_type_is_none() {
    let t = ty("ID", "SCALAR", None);
    assert!(t.get_field("anything", false).is_none());
}

#[test]
fn get_field_map_lists_fields() {
    let t = ty("User", "OBJECT", Some(vec![fld("a", "A"), fld("b", "B")]));
    let m = t.get_field_map();
    assert_eq!(m.fields.len(), 2);
    assert_eq!(m.fields[0].name, "a");
    assert_eq!(m.fields[1].name, "b");
    let none = ty("ID", "SCALAR", None).get_field_map();
    assert!(none.fields.is_empty());
}

#[test]
fn get_deepest_unwraps_wrappers() {
    let wrapped = TypeRef {
        name: None,
        kind: "NON_NULL".to_string(),
        of_type: Some(Box::new(TypeRef {
            name: None,
            kind: "LIST".to_string(),
            of_type: Some(Box::new(named_ref("Post", "OBJECT"))),
        })),
    };
    let deep = wrapped.get_deepest();
    assert_eq!(deep.name, Some("Post".to_string()));
    assert_eq!(deep.kind, "OBJECT");
    assert!(deep.of_type.is_none());
    assert!(deep.is_object());
    assert!(!wrapped.is_object());
}

#[test]
fn get_type_name_reads_deepest_name() {
    let f = Field {
        name: "posts".to_string(),
        field_type: TypeRef {
            name: None,
            kind: "LIST".to_string(),
            of_type: Some(Box::new(named_ref("Post", "OBJECT"))),
        },
    };
    assert_eq!(f.get_type_name(), "Post");
}

#[test]
fn type_map_lookup_and_duplicates() {
    let tm = Schema {
        types: vec![
            ty("User", "OBJECT", Some(vec![fld("old", "A")])),
            ty("Post", "OBJECT", None),
            ty("User", "OBJECT", Some(vec![fld("new", "B")])),
        ],
    }
    .get_type_map();
    let user = tm.get("User").expect("present");
    let fields = user.fields.as_ref().expect("fields");
    assert_eq!(fields[0].name, "new");
    assert!(tm.get("Comment").is_none());
}

#[test]
fn filter_type_map_keeps_matching_names() {
    let schema = Schema {
        types: vec![
            ty("User", "OBJECT", None),
            ty("Post", "OBJECT", None),
            ty("User", "OBJECT", Some(vec![])),
        ],
    };
    let tm = schema.filter_type_map("User");
    assert_eq!(tm.types.len(), 2);
    assert!(tm.types.iter().all(|t| t.name == "User"));
}

#[test]
fn check_resolvable_detects_unnamed_deepest_type() {
    let bad = Schema {
        types: vec![ty(
            "Query",
            "OBJECT",
            Some(vec![Field {
                name: "broken".to_string(),
                field_type: TypeRef { name: None, kind: "OBJECT".to_string(), of_type: None },
            }]),
        )],
    }
    .get_type_map();
    assert!(!bad.check_resolvable("Query"));
    assert!(bad.check_resolvable("Mutation"));
    let good = Schema { types: vec![ty("Query", "OBJECT", Some(vec![fld("user", "User")]))] }
        .get_type_map();
    assert!(good.check_resolvable("Query"));
}

#[test]
fn string_helpers() {
    assert!(str_eq("abc", "abc"));
    assert!(!str_eq("abc", "abd"));
    assert!(!str_eq("abc", "ab"));
    assert!(str_contains("UserConnection", "Connection"));
    assert!(str_contains("UserConnection", ""));
    assert!(!str_contains("User", "Connection"));
    assert!(str_ends_with("UserConnection", "Connection"));
    assert!(!str_ends_with("ConnectionUser", "Connection"));
    assert!(!str_ends_with("Edge", "UserEdge"));
}
