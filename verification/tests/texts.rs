use holo_northbound::filter::{relay_request, GetFilter};
use holo_northbound::lookup::{key_predicates, ListKey};
use holo_northbound::plan::RelayPoint;
use holo_northbound::schema::{SchemaNode, SchemaNodeKind};
use holo_northbound::stream::split_stream_path;
use holo_northbound::text::{rsplit_once, split_once};

fn pair(a: &str, b: &str) -> Option<(String, String)> {
    Some((a.to_string(), b.to_string()))
}

fn filter(max_depth: u32, exclude: &[&str]) -> GetFilter {
    GetFilter {
        max_depth,
        exclude: exclude.iter().map(|e| e.to_string()).collect(),
    }
}

fn excluded(exclude: &[&str], module: &str, name: &str) -> bool {
    filter(0, exclude).excludes(&module.to_string(), &name.to_string())
}

#[test]
fn splits_at_the_first_separator() {
    assert_eq!(split_once("a:b:c", ':'), pair("a", "b:c"));
    assert_eq!(split_once(":", ':'), pair("", ""));
    assert_eq!(split_once("prüfung:größe", ':'), pair("prüfung", "größe"));
    assert_eq!(split_once("abc", ':'), None);
    assert_eq!(split_once("", ':'), None);
}

#[test]
fn splits_at_the_last_separator() {
    assert_eq!(rsplit_once("a/b/c", '/'), pair("a/b", "c"));
    assert_eq!(rsplit_once("é/ü", '/'), pair("é", "ü"));
    assert_eq!(rsplit_once("abc", '/'), None);
}

#[test]
fn splits_stream_paths() {
    let split = |path: &str| split_stream_path(&path.to_string());
    assert_eq!(
        split("/ietf-routing:routing/ribs/rib"),
        pair("/ietf-routing:routing/ribs", "rib")
    );
    assert_eq!(split("/top"), pair("", "top"));
    assert_eq!(split("a/"), pair("a", ""));
    assert_eq!(split("rib"), None);
}

#[test]
fn parts_of_a_stream_path_make_it_up_again() {
    for path in ["/a:b/c[k='v']/d", "/x", "x/y", "//"] {
        let (parent, terminal) = split_stream_path(&path.to_string()).unwrap();
        assert_eq!(format!("{parent}/{terminal}"), path);
        assert!(!terminal.contains('/'));
    }
}

#[test]
fn plain_exclude_entries_name_a_node_in_every_module() {
    assert!(excluded(&["routes"], "ietf-routing", "routes"));
    assert!(excluded(&["routes"], "other", "routes"));
    assert!(!excluded(&["routes"], "routes", "rib"));
    assert!(!excluded(&["route"], "ietf-routing", "routes"));
    assert!(!excluded(&[], "ietf-routing", "routes"));
}

#[test]
fn qualified_exclude_entries_name_a_node_of_one_module() {
    assert!(excluded(&["ietf-routing:routes"], "ietf-routing", "routes"));
    assert!(!excluded(&["other:routes"], "ietf-routing", "routes"));
    assert!(!excluded(&["ietf-routing:rib"], "ietf-routing", "routes"));
    assert!(excluded(
        &["rib", "ietf-routing:routes"],
        "ietf-routing",
        "routes"
    ));
    // Only the first colon separates.
    assert!(excluded(&["m:a:b"], "m", "a:b"));
    assert!(!excluded(&["m:a:b"], "m:a", "b"));
}

#[test]
fn wrappers_are_never_left_out() {
    let node = |kind| SchemaNode {
        kind,
        module: "m".to_string(),
        name: "n".to_string(),
        data_path: "/m:n".to_string(),
        children: vec![],
    };
    let f = filter(0, &["n"]);
    assert!(f.keeps(&node(SchemaNodeKind::Choice)));
    assert!(f.keeps(&node(SchemaNodeKind::Case)));
    assert!(!f.keeps(&node(SchemaNodeKind::List)));
    assert!(!f.keeps(&node(SchemaNodeKind::Container)));
    let all = filter(0, &[]);
    assert!(all.keeps(&node(SchemaNodeKind::List)));
    assert!(all.keeps(&node(SchemaNodeKind::Container)));
    assert!(!all.keeps(&node(SchemaNodeKind::Leaf)));
    assert!(!all.keeps(&node(SchemaNodeKind::Action)));
    assert!(!all.keeps(&node(SchemaNodeKind::Notification)));
}

#[test]
fn depth_limit_is_reached_at_the_limit() {
    assert!(!filter(3, &[]).reached(2));
    assert!(filter(3, &[]).reached(3));
    assert!(filter(3, &[]).reached(4));
    assert!(!filter(0, &[]).reached(u32::MAX));
}

#[test]
fn relayed_limit_is_what_is_left_but_never_zero() {
    let limit = |max_depth, depth| {
        relay_request((), "/p".to_string(), &filter(max_depth, &[]), depth)
            .request
            .max_depth
    };
    assert_eq!(limit(5, 0), 5);
    assert_eq!(limit(5, 2), 3);
    assert_eq!(limit(5, 4), 1);
    assert_eq!(limit(5, 5), 1);
    assert_eq!(limit(5, 9), 1);
    assert_eq!(limit(u32::MAX, u32::MAX - 2), 2);
    assert_eq!(limit(0, 0), 0);
    assert_eq!(limit(0, 7), 0);
}

#[test]
fn relayed_request_stops_where_the_request_would() {
    for max_depth in 1..6u32 {
        for depth in 0..max_depth {
            let request = filter(max_depth, &[]);
            let relay = relay_request((), String::new(), &request, depth);
            let relayed = filter(relay.request.max_depth, &[]);
            for further in 0..8 {
                assert_eq!(relayed.reached(further), request.reached(depth + further));
            }
        }
    }
}

#[test]
fn relay_carries_task_path_and_exclude_entries() {
    let relay = relay_request("task", "/a:b".to_string(), &filter(2, &["x", "m:y"]), 1);
    assert_eq!(relay.nb_tx, "task");
    assert_eq!(relay.request.path, Some("/a:b".to_string()));
    assert_eq!(relay.request.max_depth, 1);
    assert_eq!(relay.request.exclude, vec!["x", "m:y"]);
}

#[test]
fn relay_point_asks_about_the_child() {
    let point = RelayPoint {
        task: 7,
        module: "ietf-bgp".to_string(),
        name: "bgp".to_string(),
        depth: 2,
    };
    let relay = point.into_relay("/a:b/c[k='v']".to_string(), &filter(6, &["z"]));
    assert_eq!(relay.nb_tx, 7);
    assert_eq!(
        relay.request.path,
        Some("/a:b/c[k='v']/ietf-bgp:bgp".to_string())
    );
    assert_eq!(relay.request.max_depth, 4);
    assert_eq!(relay.request.exclude, vec!["z"]);
}

#[test]
fn writes_key_predicates() {
    let key = |name: &str, value: &str| ListKey {
        name: name.to_string(),
        value: value.to_string(),
    };
    assert_eq!(key_predicates(&vec![]), "");
    assert_eq!(key_predicates(&vec![key("name", "main")]), "[name='main']");
    assert_eq!(
        key_predicates(&vec![
            key("prefix", "10.0.0.0/24"),
            key("path-id", "0")
        ]),
        "[prefix='10.0.0.0/24'][path-id='0']"
    );
}
