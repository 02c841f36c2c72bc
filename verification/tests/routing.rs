use blog::mstruct::MyRouter;
use blog::params::{bind_rule_params, placeholder_name, PathParams};
use blog::path::{is_param_segment, param_name_of, route_key_of, split_path};
use blog::process::node_match;
use blog::redixtree::{HashRadixNode, HashRadixTree};

fn segs(path: &str) -> Vec<String> {
    split_path(path)
}

#[test]
fn split_path_keeps_non_empty_pieces() {
    assert_eq!(split_path("/posts/42"), vec!["posts".to_string(), "42".to_string()]);
    assert_eq!(split_path("//a///b/"), vec!["a".to_string(), "b".to_string()]);
    assert_eq!(split_path("a/b"), vec!["a".to_string(), "b".to_string()]);
    assert!(split_path("").is_empty());
    assert!(split_path("/").is_empty());
    assert!(split_path("///").is_empty());
    assert_eq!(split_path("/天气/今天"), vec!["天气".to_string(), "今天".to_string()]);
}

#[test]
fn parameter_segments() {
    assert!(is_param_segment(":id"));
    assert!(is_param_segment(":"));
    assert!(!is_param_segment("id"));
    assert!(!is_param_segment(""));
    assert_eq!(param_name_of(":id"), "id");
    assert_eq!(param_name_of(":"), "");
    assert_eq!(route_key_of(":id"), ":");
    assert_eq!(route_key_of("posts"), "posts");
}

#[test]
fn params_read_after_write() {
    let mut p = PathParams::new();
    assert_eq!(p.get("id"), None);
    p.insert("id".to_string(), "1".to_string());
    p.insert("name".to_string(), "x".to_string());
    assert_eq!(p.get("id").map(|s| s.as_str()), Some("1"));
    p.insert("id".to_string(), "2".to_string());
    assert_eq!(p.get("id").map(|s| s.as_str()), Some("2"));
    assert_eq!(p.get("name").map(|s| s.as_str()), Some("x"));
    assert_eq!(p.get("other"), None);
}

#[test]
fn placeholder_names_are_decimal() {
    assert_eq!(placeholder_name(0), "param_0");
    assert_eq!(placeholder_name(7), "param_7");
    assert_eq!(placeholder_name(10), "param_10");
    assert_eq!(placeholder_name(1234), "param_1234");
}

#[test]
fn rule_params_come_from_placeholders() {
    let mut captured = PathParams::new();
    captured.insert("param_1".to_string(), "42".to_string());
    captured.insert("param_3".to_string(), "alice".to_string());
    let p = bind_rule_params("/:user/posts/:id", &captured);
    assert_eq!(p.get("id").map(|s| s.as_str()), Some("42"));
    assert_eq!(p.get("user").map(|s| s.as_str()), Some("alice"));
    let none = bind_rule_params("/:user/posts/:id", &PathParams::new());
    assert_eq!(none.get("id"), None);
    assert_eq!(none.get("user"), None);
}

#[test]
fn my_router_dispatches_registered_routes() {
    let router = MyRouter::new()
        .route("GET", "/", 0u32)
        .route("GET", "/weather", 1u32)
        .route("GET", "/posts/:id", 2u32);
    let (h, p) = router.dispatch("GET", "/").unwrap();
    assert_eq!(*h, 0);
    assert_eq!(p.get("id"), None);
    let (h, _) = router.dispatch("GET", "/weather").unwrap();
    assert_eq!(*h, 1);
    let (h, p) = router.dispatch("GET", "/posts/42").unwrap();
    assert_eq!(*h, 2);
    assert_eq!(p.get("id").map(|s| s.as_str()), Some("42"));
    assert!(router.dispatch("POST", "/weather").is_none());
    assert!(router.dispatch("GET", "/posts").is_none());
    assert!(router.dispatch("GET", "/posts/42/comments").is_none());
    assert!(router.dispatch("GET", "/nothing").is_none());
}

#[test]
fn my_router_first_route_wins() {
    let router = MyRouter::new()
        .route("GET", "/posts/:id", "param")
        .route("GET", "/posts/new", "literal");
    let (h, p) = router.dispatch("GET", "/posts/new").unwrap();
    assert_eq!(*h, "param");
    assert_eq!(p.get("id").map(|s| s.as_str()), Some("new"));
}

#[test]
fn my_router_repeated_parameter_name_keeps_last() {
    let router = MyRouter::new().route("GET", "/:a/:a", 5u8);
    let (h, p) = router.dispatch("GET", "//x//y").unwrap();
    assert_eq!(*h, 5);
    assert_eq!(p.get("a").map(|s| s.as_str()), Some("y"));
}

#[test]
fn radix_node_matches_literal_then_parameter() {
    let mut node = HashRadixNode::new();
    node.insert_path(&segs("/posts/:id"), "/posts/:id", 1u32);
    node.insert_path(&segs("/posts/new"), "/posts/new", 2u32);
    node.insert_path(&segs("/about"), "/about", 3u32);
    let empty = PathParams::new();
    let (h, p) = node.node_match(&segs("/posts/new"), &empty).unwrap();
    assert_eq!(*h, 2);
    assert_eq!(p.get("id"), None);
    let (h, p) = node.node_match(&segs("/posts/7"), &empty).unwrap();
    assert_eq!(*h, 1);
    assert_eq!(p.get("id").map(|s| s.as_str()), Some("7"));
    let (h, _) = node.node_match(&segs("/about"), &empty).unwrap();
    assert_eq!(*h, 3);
    assert!(node.node_match(&segs("/posts"), &empty).is_none());
    assert!(node.node_match(&segs("/contact"), &empty).is_none());
}

#[test]
fn radix_node_does_not_backtrack() {
    let mut node = HashRadixNode::new();
    node.insert_path(&segs("/a/b"), "/a/b", 1u32);
    node.insert_path(&segs("/:x/c"), "/:x/c", 2u32);
    let empty = PathParams::new();
    assert!(node.node_match(&segs("/a/c"), &empty).is_none());
    let (h, _) = node.node_match(&segs("/z/c"), &empty).unwrap();
    assert_eq!(*h, 2);
}

#[test]
fn radix_node_binds_rule_params_from_placeholders() {
    let mut node = HashRadixNode::new();
    node.insert_path(&segs("/posts/:id"), "/posts/:id", 1u32);
    let mut captured = PathParams::new();
    captured.insert("param_1".to_string(), "old".to_string());
    captured.insert("param_2".to_string(), "kept".to_string());
    let (h, p) = node.node_match(&segs("/posts/9"), &captured).unwrap();
    assert_eq!(*h, 1);
    assert_eq!(p.get("id").map(|s| s.as_str()), Some("9"));
    node.insert_path(&segs("/:kind/list"), "/:kind/list", 2u32);
    let (h, p) = node.node_match(&segs("/other/list"), &captured).unwrap();
    assert_eq!(*h, 2);
    assert_eq!(p.get("kind").map(|s| s.as_str()), Some("other"));
}

#[test]
fn radix_node_later_insert_replaces() {
    let mut node = HashRadixNode::new();
    node.insert_path(&segs("/x/:a"), "/x/:a", 1u32);
    node.insert_path(&segs("/x/:b"), "/x/:b", 2u32);
    let (h, p) = node.node_match(&segs("/x/1"), &PathParams::new()).unwrap();
    assert_eq!(*h, 2);
    assert_eq!(p.get("b").map(|s| s.as_str()), Some("1"));
    assert_eq!(p.get("a"), None);
}

#[test]
fn exact_node_match_follows_literal_keys() {
    let mut node = HashRadixNode::new();
    node.insert_path(&segs("/posts/:id"), "/posts/:id", 1u32);
    node.insert_path(&segs("/posts/new"), "/posts/new", 2u32);
    let empty = PathParams::new();
    let (h, _) = node_match(&node, &segs("/posts/new"), &empty).unwrap();
    assert_eq!(*h, 2);
    let (h, _) = node_match(&node, &segs("/posts/:"), &empty).unwrap();
    assert_eq!(*h, 1);
    assert!(node_match(&node, &segs("/posts/7"), &empty).is_none());
    assert!(node_match(&node, &segs("/other"), &empty).is_none());
}

#[test]
fn radix_tree_forward_and_backward() {
    let mut tree = HashRadixTree::new();
    tree.route("/weather", 1u32);
    tree.route("/posts/:id", 2u32);
    tree.route("/:id/info", 3u32);
    tree.route("/:a/:b", 4u32);
    let (h, p) = tree.match_path(&segs("/weather")).unwrap();
    assert_eq!(*h, 1);
    assert_eq!(p.get("id"), None);
    let (h, p) = tree.match_path(&segs("/posts/5")).unwrap();
    assert_eq!(*h, 2);
    assert_eq!(p.get("id").map(|s| s.as_str()), Some("5"));
    let (h, p) = tree.match_path(&segs("/5/info")).unwrap();
    assert_eq!(*h, 3);
    assert_eq!(p.get("id").map(|s| s.as_str()), Some("5"));
    assert!(tree.match_path(&segs("/1/2")).is_none());
    assert!(tree.match_path(&segs("/nothing")).is_none());
}

#[test]
fn radix_tree_takes_params_from_the_url() {
    let mut tree = HashRadixTree::new();
    tree.route("/posts/:id", 1u32);
    tree.route("/:user/posts/:id/edit", 2u32);
    tree.route("/:", 3u32);
    let (h, p) = tree.match_path(&segs("/posts/42")).unwrap();
    assert_eq!(*h, 1);
    assert_eq!(p.get("id").map(|s| s.as_str()), Some("42"));
    let (h, p) = tree.match_path(&segs("/bob/posts/7/edit")).unwrap();
    assert_eq!(*h, 2);
    assert_eq!(p.get("user").map(|s| s.as_str()), Some("bob"));
    assert_eq!(p.get("id").map(|s| s.as_str()), Some("7"));
    let (h, p) = tree.match_path(&segs("/:")).unwrap();
    assert_eq!(*h, 3);
    assert_eq!(p.get("").map(|s| s.as_str()), Some(":"));
}

#[test]
fn radix_node_records_parameters_from_the_walk() {
    let mut node = HashRadixNode::new();
    node.insert_path(&segs("/:a/x/:b"), "/:a/x/:b", 1u32);
    let (h, p) = node.node_match(&segs("/1/x/2"), &PathParams::new()).unwrap();
    assert_eq!(*h, 1);
    assert_eq!(p.get("a").map(|s| s.as_str()), Some("1"));
    assert_eq!(p.get("b").map(|s| s.as_str()), Some("2"));
}
