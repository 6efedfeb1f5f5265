use revql::render::{path_line, visible_hops};
use revql::schema::{Field, Schema, Type, TypeMap, TypeRef};
use revql::search::{run_search, run_search_for_field, run_search_for_type, search, TypeField};

fn obj(name: &str, fields: Vec<Field>) -> Type {
    Type { name: name.to_string(), kind: "OBJECT".to_string(), fields: Some(fields) }
}

fn scalar(name: &str) -> Type {
    Type { name: name.to_string(), kind: "SCALAR".to_string(), fields: None }
}

fn fld(name: &str, ty: &str) -> Field {
    Field {
        name: name.to_string(),
        field_type: TypeRef {
            name: Some(ty.to_string()),
            kind: "OBJECT".to_string(),
            of_type: None,
        },
    }
}

fn fld_list(name: &str, ty: &str) -> Field {
    Field {
        name: name.to_string(),
        field_type: TypeRef {
            name: None,
            kind: "LIST".to_string(),
            of_type: Some(Box::new(TypeRef {
                name: Some(ty.to_string()),
                kind: "OBJECT".to_string(),
                of_type: None,
            })),
        },
    }
}

fn fld_scalar(name: &str, ty: &str) -> Field {
    Field {
        name: name.to_string(),
        field_type: TypeRef {
            name: Some(ty.to_string()),
            kind: "SCALAR".to_string(),
            of_type: None,
        },
    }
}

fn tmap(types: Vec<Type>) -> TypeMap {
    Schema { types }.get_type_map()
}

fn hop(tf: &TypeField) -> (String, Option<String>) {
    (tf.ty_name.clone(), tf.field_name.clone())
}

#[test]
fn self_path_returns_single_entry() {
    let tm = tmap(vec![]);
    let r = search("User", "User", &tm);
    assert_eq!(r.len(), 1);
    assert_eq!(r[0].ty_name, "User");
    assert!(r[0].field_name.is_none());
}

#[test]
fn self_path_ignores_map_contents() {
    let tm = tmap(vec![obj("Other", vec![fld("x", "Other")])]);
    let r = search("Missing", "Missing", &tm);
    assert_eq!(r.len(), 1);
    assert_eq!(r[0].ty_name, "Missing");
}

#[test]
fn unreachable_type_yields_empty_path() {
    let tm = tmap(vec![
        obj("Query", vec![fld("a", "A")]),
        obj("A", vec![]),
        obj("B", vec![]),
    ]);
    let r = search("A", "B", &tm);
    assert!(r.is_empty());
}

#[test]
fn absent_start_yields_empty_path() {
    let tm = tmap(vec![obj("B", vec![])]);
    let r = search("A", "B", &tm);
    assert!(r.is_empty());
}

#[test]
fn shortest_route_wins() {
    let tm = tmap(vec![
        obj("S", vec![fld("step1", "M1"), fld("direct", "T")]),
        obj("M1", vec![fld("step2", "M2")]),
        obj("M2", vec![fld("step3", "T")]),
        obj("T", vec![]),
    ]);
    let r = search("S", "T", &tm);
    assert_eq!(r.len(), 1);
    assert_eq!(hop(&r[0]), ("S".to_string(), Some("direct".to_string())));
}

#[test]
fn self_referencing_type_terminates() {
    let tm = tmap(vec![obj("A", vec![fld("me", "A")])]);
    let r = search("A", "B", &tm);
    assert!(r.is_empty());
    let s = search("A", "A", &tm);
    assert_eq!(s.len(), 1);
}

#[test]
fn cycle_between_types_terminates() {
    let tm = tmap(vec![
        obj("Query", vec![fld("user", "User")]),
        obj("User", vec![fld_list("posts", "Post")]),
        obj("Post", vec![fld("author", "User")]),
    ]);
    let r = search("User", "Post", &tm);
    assert_eq!(r.len(), 1);
    assert_eq!(hop(&r[0]), ("User".to_string(), Some("posts".to_string())));
}

fn blog_schema() -> TypeMap {
    tmap(vec![
        obj("Query", vec![fld("user", "User")]),
        scalar("ID"),
        obj(
            "User",
            vec![fld_scalar("id", "ID"), fld_list("posts", "Post")],
        ),
        obj(
            "Post",
            vec![fld_scalar("id", "ID"), fld("author", "User")],
        ),
    ])
}

#[test]
fn end_to_end_type_search() {
    let tm = blog_schema();
    let r = run_search_for_type("Post", false, false, &tm);
    assert_eq!(r.len(), 1);
    assert_eq!(r[0].target.ty_name, "Post");
    assert!(r[0].target.field_name.is_none());
    let hops: Vec<_> = r[0].path.iter().map(hop).collect();
    assert_eq!(
        hops,
        vec![
            ("Query".to_string(), Some("user".to_string())),
            ("User".to_string(), Some("posts".to_string())),
        ]
    );
    let line = path_line(&r[0].target, &r[0].path, false, &tm);
    assert_eq!(line, "Post: Query.user -> User.posts");
}

#[test]
fn end_to_end_field_search() {
    let tm = blog_schema();
    let r = run_search_for_field("author", false, false, &tm);
    assert_eq!(r.len(), 1);
    assert_eq!(r[0].target.ty_name, "Post");
    assert_eq!(r[0].target.field_name, Some("author".to_string()));
    let hops: Vec<_> = r[0].path.iter().map(hop).collect();
    assert_eq!(
        hops,
        vec![
            ("Query".to_string(), Some("user".to_string())),
            ("User".to_string(), Some("posts".to_string())),
        ]
    );
    let line = path_line(&r[0].target, &r[0].path, false, &tm);
    assert_eq!(line, "Post.author: Query.user -> User.posts");
}

#[test]
fn run_search_prefixes_root_hop() {
    let tm = blog_schema();
    let target = TypeField::new("User", None);
    let r = run_search("Query", &target, &tm);
    assert_eq!(r.len(), 1);
    assert_eq!(r[0].len(), 2);
    assert_eq!(hop(&r[0][0]), ("Query".to_string(), Some("user".to_string())));
    assert_eq!(hop(&r[0][1]), ("User".to_string(), None));
}

#[test]
fn missing_root_yields_no_results() {
    let tm = blog_schema();
    let target = TypeField::new("User", None);
    let r = run_search("Mutation", &target, &tm);
    assert!(r.is_empty());
}

#[test]
fn mutation_root_is_searched_too() {
    let tm = tmap(vec![
        obj("Query", vec![fld("user", "User")]),
        obj("Mutation", vec![fld("addUser", "User")]),
        obj("User", vec![]),
    ]);
    let r = run_search_for_type("User", false, false, &tm);
    assert_eq!(r.len(), 2);
    let hops0: Vec<_> = r[0].path.iter().map(hop).collect();
    let hops1: Vec<_> = r[1].path.iter().map(hop).collect();
    assert_eq!(hops0[0], ("Query".to_string(), Some("user".to_string())));
    assert_eq!(hops1[0], ("Mutation".to_string(), Some("addUser".to_string())));
}

#[test]
fn containing_type_search_matches_substrings() {
    let tm = tmap(vec![
        obj("Query", vec![fld("user", "User"), fld("account", "Account")]),
        obj("User", vec![]),
        obj("Account", vec![]),
    ]);
    let r = run_search_for_type("count", true, false, &tm);
    assert_eq!(r.len(), 1);
    assert_eq!(r[0].target.ty_name, "Account");
}

fn relay_schema() -> TypeMap {
    tmap(vec![
        obj("Query", vec![fld("things", "ThingConnection")]),
        obj(
            "ThingConnection",
            vec![fld_list("edges", "ThingEdge"), fld("pageInfo", "PageInfo")],
        ),
        obj(
            "ThingEdge",
            vec![fld_scalar("cursor", "String"), fld("node", "Thing")],
        ),
        obj(
            "PageInfo",
            vec![
                fld_scalar("hasNextPage", "Boolean"),
                fld_scalar("hasPreviousPage", "Boolean"),
            ],
        ),
        obj("Thing", vec![fld_scalar("id", "ID")]),
    ])
}

#[test]
fn relay_targets_are_skipped_by_default() {
    let tm = relay_schema();
    let r = run_search_for_type("ThingConnection", false, false, &tm);
    assert!(r.is_empty());
    let shown = run_search_for_type("ThingConnection", false, true, &tm);
    assert_eq!(shown.len(), 1);
}

#[test]
fn relay_hops_are_elided_from_lines() {
    let tm = relay_schema();
    let r = run_search_for_type("Thing", false, false, &tm);
    assert_eq!(r.len(), 1);
    let line = path_line(&r[0].target, &r[0].path, false, &tm);
    assert_eq!(line, "Thing: Query.things");
    let full = path_line(&r[0].target, &r[0].path, true, &tm);
    assert_eq!(
        full,
        "Thing: Query.things -> ThingConnection.edges -> ThingEdge.node"
    );
}

#[test]
fn visible_hops_filters_relay_entries() {
    let tm = relay_schema();
    let r = run_search_for_type("Thing", false, false, &tm);
    let vis = visible_hops(&r[0].path, false, &tm);
    let hops: Vec<_> = vis.iter().map(hop).collect();
    assert_eq!(hops, vec![("Query".to_string(), Some("things".to_string()))]);
    let all = visible_hops(&r[0].path, true, &tm);
    assert_eq!(all.len(), 3);
}

#[test]
fn render_hop_text() {
    let with_field = TypeField::new("User", Some("posts".to_string()));
    let bare = TypeField::new("User", None);
    assert_eq!(with_field.render(), "User.posts");
    assert_eq!(bare.render(), "User");
}

#[test]
fn dangling_reference_is_a_dead_branch() {
    let tm = tmap(vec![
        obj("Query", vec![fld("ghost", "Phantom"), fld("user", "User")]),
        obj("User", vec![]),
    ]);
    // The phantom target is absent from the map: searching for it finds
    // nothing, and it does not disturb the search for present types.
    let r = run_search_for_type("Phantom", false, false, &tm);
    assert!(r.is_empty());
    let ok = run_search_for_type("User", false, false, &tm);
    assert_eq!(ok.len(), 1);
    assert_eq!(ok[0].target.ty_name, "User");
}

#[test]
fn one_result_per_reaching_field_in_declaration_order() {
    let tm = tmap(vec![
        obj("Query", vec![fld("first", "User"), fld("second", "User")]),
        obj("User", vec![]),
    ]);
    let target = TypeField::new("User", None);
    let r = run_search("Query", &target, &tm);
    assert_eq!(r.len(), 2);
    assert_eq!(hop(&r[0][0]), ("Query".to_string(), Some("first".to_string())));
    assert_eq!(hop(&r[1][0]), ("Query".to_string(), Some("second".to_string())));
}
