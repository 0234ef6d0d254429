use std::cell::Cell;

use holo_northbound::context::{Target, YangContext};
use holo_northbound::filter::GetFilter;
use holo_northbound::get::{
    get_resolved, process_get, request_path, Error, GetPlan, Replies,
};
use holo_northbound::lookup::{find_entry, lookup_list_entry, ListKey, PathNode};
use holo_northbound::plan::{DataTerm, PlanNode, Subtree, YangObject};
use holo_northbound::provider::{
    container_ops, list_ops, ListEntryKind, ListIterator, Provider, ProviderBase, YangContainer,
    YangContainerOps, YangList, YangListOps, YangOps,
};
use holo_northbound::schema::{SchemaNode, SchemaNodeKind};
use holo_northbound::stream::{
    process_stream_get, reply_data, stream_resolved, StreamGet, StreamGetRequest,
};
use holo_northbound::walk::{iterate_children, iterate_list, iterate_node};

const ROUTING: &str = "/ietf-routing:routing";
const PROTOCOL: &str = "/ietf-routing:routing/control-plane-protocols/control-plane-protocol";
const RIB: &str = "/ietf-routing:routing/ribs/rib";
const ROUTE: &str = "/ietf-routing:routing/ribs/rib/routes/route";

// ===== a provider =====

#[derive(Debug)]
struct Rib {
    name: &'static str,
    routes: Vec<&'static str>,
    packets: Option<u32>,
}

struct Router {
    router_id: Option<&'static str>,
    protocols: Vec<&'static str>,
    ribs: Vec<Rib>,
    /// Number of list entries that were drawn.
    drawn: Cell<usize>,
}

#[derive(Debug)]
enum Entry<'a> {
    Root,
    Protocol(&'a str),
    Rib(&'a Rib),
    Route(&'a str),
}

impl Default for Entry<'_> {
    fn default() -> Self {
        Entry::Root
    }
}

struct Draws<'a> {
    entries: Box<dyn Iterator<Item = Entry<'a>> + 'a>,
    drawn: &'a Cell<usize>,
}

impl<'a> ListIterator for Draws<'a> {
    type Entry = Entry<'a>;

    fn next(mut self) -> Option<(Entry<'a>, Self)> {
        let entry = self.entries.next()?;
        self.drawn.set(self.drawn.get() + 1);
        Some((entry, self))
    }
}

fn draws<'a>(
    provider: &'a Router,
    entries: impl Iterator<Item = Entry<'a>> + 'a,
) -> Option<Draws<'a>> {
    Some(Draws {
        entries: Box::new(entries),
        drawn: &provider.drawn,
    })
}

impl ListEntryKind for Entry<'_> {
    type Task = String;

    fn child_task(&self, module_name: &str) -> Option<String> {
        match self {
            Entry::Protocol(name) if module_name == "ietf-bgp" => Some(format!("task {name}")),
            _ => None,
        }
    }
}

impl ProviderBase for Router {
    fn top_level_node(&self) -> String {
        ROUTING.to_string()
    }
}

fn term(name: &str, value: &str) -> DataTerm {
    DataTerm {
        module: None,
        name: name.to_string(),
        value: Some(value.to_string()),
    }
}

fn object(list_keys: String, terms: Vec<DataTerm>) -> YangObject {
    YangObject { list_keys, terms }
}

struct RibList {
    name: &'static str,
}

impl<'a> YangList<'a, Router> for RibList {
    const STREAMABLE: bool = true;

    fn iter(provider: &'a Router, _list_entry: &Entry<'a>) -> Option<Draws<'a>> {
        draws(provider, provider.ribs.iter().map(Entry::Rib))
    }

    fn new(_provider: &'a Router, list_entry: &Entry<'a>) -> Self {
        match list_entry {
            Entry::Rib(rib) => RibList { name: rib.name },
            _ => panic!("not a RIB"),
        }
    }
}

struct ProtocolList {
    name: String,
}

impl<'a> YangList<'a, Router> for ProtocolList {
    fn iter(provider: &'a Router, _list_entry: &Entry<'a>) -> Option<Draws<'a>> {
        draws(provider, provider.protocols.iter().map(|p| Entry::Protocol(p)))
    }

    fn new(_provider: &'a Router, list_entry: &Entry<'a>) -> Self {
        match list_entry {
            Entry::Protocol(name) => ProtocolList {
                name: name.to_string(),
            },
            _ => panic!("not a protocol"),
        }
    }
}

struct Statistics {
    packets: u32,
}

impl<'a> YangContainer<'a, Router> for Statistics {
    fn new(_provider: &'a Router, list_entry: &Entry<'a>) -> Option<Self> {
        match list_entry {
            Entry::Rib(rib) => rib.packets.map(|packets| Statistics { packets }),
            _ => None,
        }
    }
}

impl Provider for Router {
    type Task = String;
    type ListEntry<'a> = Entry<'a>;
    type ListIter<'a> = Draws<'a>;

    const YANG_OPS: YangOps = YangOps {
        list: phf::Map {
            key: 3,
            disps: &[(0, 0)],
            entries: &[
                (
                    RIB,
                    YangListOps {
                        id: 1,
                        streamable: RibList::STREAMABLE,
                    },
                ),
                (
                    ROUTE,
                    YangListOps {
                        id: 2,
                        streamable: false,
                    },
                ),
                (
                    PROTOCOL,
                    YangListOps {
                        id: 0,
                        streamable: ProtocolList::STREAMABLE,
                    },
                ),
            ],
        },
        container: phf::Map {
            key: 5,
            disps: &[(0, 0)],
            entries: &[
                (
                    "/ietf-routing:routing/ribs/rib/statistics",
                    YangContainerOps { id: 2 },
                ),
                (ROUTING, YangContainerOps { id: 0 }),
                (
                    "/ietf-routing:routing/ribs/rib/routes",
                    YangContainerOps { id: 1 },
                ),
            ],
        },
    };

    fn list_iter<'a>(&'a self, ops: &YangListOps, parent: &Entry<'a>) -> Option<Draws<'a>> {
        match (ops.id, parent) {
            (0, _) => ProtocolList::iter(self, parent),
            (1, _) => RibList::iter(self, parent),
            (2, Entry::Rib(rib)) => draws(self, rib.routes.iter().map(|r| Entry::Route(r))),
            _ => None,
        }
    }

    fn list_new<'a>(&'a self, ops: &YangListOps, entry: &Entry<'a>) -> YangObject {
        match (ops.id, entry) {
            (0, _) => {
                let list = <ProtocolList as YangList<Router>>::new(self, entry);
                object(format!("[name='{}']", list.name), vec![])
            }
            (1, _) => {
                let list = <RibList as YangList<Router>>::new(self, entry);
                object(format!("[name='{}']", list.name), vec![term("active", "true")])
            }
            (2, Entry::Route(prefix)) => {
                object(format!("[prefix='{prefix}']"), vec![term("metric", "10")])
            }
            _ => panic!("unknown list"),
        }
    }

    fn container_new<'a>(&'a self, ops: &YangContainerOps, entry: &Entry<'a>) -> Option<YangObject> {
        match ops.id {
            0 => self
                .router_id
                .map(|id| object(String::new(), vec![term("router-id", id)])),
            2 => <Statistics as YangContainer<Router>>::new(self, entry).map(|statistics| {
                object(
                    String::new(),
                    vec![term("packets", &statistics.packets.to_string())],
                )
            }),
            _ => None,
        }
    }
}

fn router() -> Router {
    Router {
        router_id: Some("1.1.1.1"),
        drawn: Cell::new(0),
        protocols: vec!["main"],
        ribs: vec![
            Rib {
                name: "v4",
                routes: vec!["10.0.0.0/8", "20.0.0.0/8"],
                packets: Some(3),
            },
            Rib {
                name: "v6",
                routes: vec![],
                packets: None,
            },
        ],
    }
}

// ===== its schema =====

fn schema_node(
    kind: SchemaNodeKind,
    module: &str,
    name: &str,
    parent: &str,
    children: Vec<SchemaNode>,
) -> SchemaNode {
    SchemaNode {
        kind,
        module: module.to_string(),
        name: name.to_string(),
        data_path: format!("{parent}/{name}"),
        children,
    }
}

fn rib_schema() -> SchemaNode {
    let node = |kind, name, parent: &str, children| {
        schema_node(kind, "ietf-routing", name, parent, children)
    };
    let route = node(
        SchemaNodeKind::List,
        "route",
        "/ietf-routing:routing/ribs/rib/routes",
        vec![],
    );
    let routes = node(SchemaNodeKind::Container, "routes", RIB, vec![route]);
    let statistics = node(SchemaNodeKind::Container, "statistics", RIB, vec![]);
    let case = node(SchemaNodeKind::Case, "counters", RIB, vec![statistics]);
    let choice = node(SchemaNodeKind::Choice, "details", RIB, vec![case]);
    let active = node(SchemaNodeKind::Leaf, "active", RIB, vec![]);
    node(
        SchemaNodeKind::List,
        "rib",
        "/ietf-routing:routing/ribs",
        vec![active, routes, choice],
    )
}

fn protocol_schema() -> SchemaNode {
    let bgp = schema_node(SchemaNodeKind::Container, "ietf-bgp", "bgp", PROTOCOL, vec![]);
    schema_node(
        SchemaNodeKind::List,
        "ietf-routing",
        "control-plane-protocol",
        "/ietf-routing:routing/control-plane-protocols",
        vec![bgp],
    )
}

fn routing_schema() -> SchemaNode {
    let node = |kind, name, children| schema_node(kind, "ietf-routing", name, ROUTING, children);
    let mut routing = node(
        SchemaNodeKind::Container,
        "routing",
        vec![
            node(SchemaNodeKind::Leaf, "router-id", vec![]),
            node(
                SchemaNodeKind::Container,
                "interfaces",
                vec![node(SchemaNodeKind::LeafList, "interface", vec![])],
            ),
            node(
                SchemaNodeKind::Container,
                "control-plane-protocols",
                vec![protocol_schema()],
            ),
            node(SchemaNodeKind::Container, "ribs", vec![rib_schema()]),
        ],
    );
    routing.data_path = ROUTING.to_string();
    routing
}

// ===== targets =====

fn path_node(kind: SchemaNodeKind, data_path: &str, keys: &[(&str, &str)]) -> PathNode {
    PathNode {
        kind,
        data_path: data_path.to_string(),
        list_keys: keys
            .iter()
            .map(|(name, value)| ListKey {
                name: name.to_string(),
                value: value.to_string(),
            })
            .collect(),
    }
}

fn ribs_path() -> Vec<PathNode> {
    vec![
        path_node(SchemaNodeKind::Container, "/ietf-routing:routing/ribs", &[]),
        path_node(SchemaNodeKind::Container, ROUTING, &[]),
    ]
}

fn rib_path(name: &str) -> Vec<PathNode> {
    let mut path = vec![path_node(SchemaNodeKind::List, RIB, &[("name", name)])];
    path.extend(ribs_path());
    path
}

fn protocol_path(name: &str) -> Vec<PathNode> {
    vec![
        path_node(SchemaNodeKind::List, PROTOCOL, &[("name", name)]),
        path_node(
            SchemaNodeKind::Container,
            "/ietf-routing:routing/control-plane-protocols",
            &[],
        ),
        path_node(SchemaNodeKind::Container, ROUTING, &[]),
    ]
}

fn top() -> Target {
    Target {
        inclusive_ancestors: vec![path_node(SchemaNodeKind::Container, ROUTING, &[])],
        snode: routing_schema(),
    }
}

// ===== plans in writing =====

fn show_terms(terms: &[DataTerm]) -> Vec<String> {
    terms
        .iter()
        .map(|t| format!("{}={}", t.name, t.value.as_deref().unwrap_or("")))
        .collect()
}

fn show(content: &Subtree<String>) -> String {
    let mut parts = show_terms(&content.terms);
    for node in &content.nodes {
        parts.push(match node {
            PlanNode::List { name, keys, content, .. } => format!("{name}{keys}({})", show(content)),
            PlanNode::Container { name, content, kept, .. } => {
                let gone = if *kept { "" } else { "-" };
                format!("{gone}{name}({})", show(content))
            }
            PlanNode::Relay(point) => {
                format!("{}:{}@{} to {}", point.module, point.name, point.depth, point.task)
            }
        });
    }
    parts.join(" ")
}

type Plan<Y> = Result<Option<GetPlan<String>>, Error<Y>>;

fn local(plan: Plan<&'static str>) -> String {
    match plan {
        Ok(Some(GetPlan::Local { content, .. })) => show(&content),
        _ => panic!("not served locally"),
    }
}

fn get_top(max_depth: u32, exclude: &[&str]) -> String {
    let exclude = exclude.iter().map(|e| e.to_string()).collect();
    local(get_resolved(
        &router(),
        ROUTING.to_string(),
        Ok(Some(top())),
        max_depth,
        exclude,
    ))
}

fn no_filter() -> GetFilter {
    GetFilter {
        max_depth: 0,
        exclude: vec![],
    }
}

// ===== Get =====

#[test]
fn get_walks_the_whole_tree() {
    assert_eq!(
        get_top(0, &[]),
        "router-id=1.1.1.1 -interfaces() \
         control-plane-protocols(control-plane-protocol[name='main'](ietf-bgp:bgp@2 to task main)) \
         ribs(rib[name='v4'](active=true \
         routes(route[prefix='10.0.0.0/8'](metric=10) route[prefix='20.0.0.0/8'](metric=10)) \
         statistics(packets=3)) \
         rib[name='v6'](active=true -routes() -statistics()))"
    );
}

#[test]
fn get_stops_at_the_depth_limit() {
    assert_eq!(
        get_top(1, &[]),
        "router-id=1.1.1.1 -interfaces() -control-plane-protocols() -ribs()"
    );
    assert_eq!(
        get_top(2, &[]),
        "router-id=1.1.1.1 -interfaces() \
         control-plane-protocols(control-plane-protocol[name='main']()) \
         ribs(rib[name='v4'](active=true) rib[name='v6'](active=true))"
    );
    // Choices and cases take up levels of their own.
    assert_eq!(
        get_top(3, &[]),
        "router-id=1.1.1.1 -interfaces() \
         control-plane-protocols(control-plane-protocol[name='main'](ietf-bgp:bgp@2 to task main)) \
         ribs(rib[name='v4'](active=true -routes()) rib[name='v6'](active=true -routes()))"
    );
    assert_eq!(get_top(5, &[]), get_top(0, &[]));
}

#[test]
fn get_leaves_out_excluded_nodes() {
    assert_eq!(
        get_top(0, &["ribs", "interfaces"]),
        "router-id=1.1.1.1 \
         control-plane-protocols(control-plane-protocol[name='main'](ietf-bgp:bgp@2 to task main))"
    );
    assert_eq!(
        get_top(0, &["ietf-routing:ribs", "ietf-bgp:bgp"]),
        "router-id=1.1.1.1 -interfaces() \
         control-plane-protocols(control-plane-protocol[name='main']())"
    );
    assert_eq!(get_top(0, &["other:ribs", "other:bgp"]), get_top(0, &[]));
    assert_eq!(
        get_top(0, &["control-plane-protocols", "interfaces", "routes", "statistics"]),
        "router-id=1.1.1.1 ribs(rib[name='v4'](active=true) rib[name='v6'](active=true))"
    );
}

#[test]
fn get_looks_through_choices_and_cases() {
    // Neither the wrappers nor the node of the request can be left out.
    assert_eq!(get_top(0, &["details", "counters", "routing"]), get_top(0, &[]));
    assert!(!get_top(0, &["statistics"]).contains("statistics"));
}

#[test]
fn get_removes_containers_that_remain_empty() {
    let mut router = router();
    router.router_id = None;
    router.protocols.clear();
    router.ribs.clear();
    let plan = get_resolved(&router, ROUTING.to_string(), Ok(Some(top())), 0, vec![]);
    assert_eq!(local(plan), "-interfaces() -control-plane-protocols() -ribs()");
}

#[test]
fn get_of_a_list_entry_walks_that_entry() {
    let target = || Target {
        inclusive_ancestors: rib_path("v4"),
        snode: rib_schema(),
    };
    let plan = get_resolved(&router(), format!("{RIB}[name='v4']"), Ok(Some(target())), 0, vec![]);
    assert_eq!(
        local(plan),
        "routes(route[prefix='10.0.0.0/8'](metric=10) route[prefix='20.0.0.0/8'](metric=10)) \
         statistics(packets=3)"
    );
    let plan = get_resolved(&router(), format!("{RIB}[name='v4']"), Ok(Some(target())), 1, vec![]);
    assert_eq!(local(plan), "-routes()");
}

#[test]
fn get_of_a_missing_list_entry_is_empty() {
    let target = Target {
        inclusive_ancestors: rib_path("v9"),
        snode: rib_schema(),
    };
    let plan = get_resolved(&router(), format!("{RIB}[name='v9']"), Ok(Some(target)), 0, vec![]);
    assert_eq!(local(plan), "-routes() -statistics()");
}

#[test]
fn get_of_a_leaf_puts_nothing() {
    let target = Target {
        inclusive_ancestors: vec![],
        snode: schema_node(SchemaNodeKind::Leaf, "ietf-routing", "router-id", ROUTING, vec![]),
    };
    let plan = get_resolved(&router(), format!("{ROUTING}/router-id"), Ok(Some(target)), 0, vec![]);
    assert_eq!(local(plan), "");
}

#[test]
fn get_of_a_node_of_another_task_is_relayed_unchanged() {
    let bgp = protocol_schema().children.remove(0);
    let target = Target {
        inclusive_ancestors: protocol_path("main"),
        snode: bgp,
    };
    let path = format!("{PROTOCOL}[name='main']/ietf-bgp:bgp");
    let exclude = vec!["neighbors".to_string()];
    let plan: Plan<()> = get_resolved(&router(), path.clone(), Ok(Some(target)), 4, exclude);
    match plan {
        Ok(Some(GetPlan::Relay(relay))) => {
            assert_eq!(relay.nb_tx, "task main");
            assert_eq!(relay.request.path, Some(path));
            assert_eq!(relay.request.max_depth, 4);
            assert_eq!(relay.request.exclude, vec!["neighbors"]);
        }
        _ => panic!("not relayed"),
    }
}

#[test]
fn get_keeps_its_filter_for_what_it_relays() {
    let plan: Plan<()> =
        get_resolved(&router(), ROUTING.to_string(), Ok(Some(top())), 6, vec!["x".to_string()]);
    let Ok(Some(GetPlan::Local { path, mut content, filter })) = plan else {
        panic!("not served locally");
    };
    assert_eq!(path, ROUTING);
    let PlanNode::Container { content: mut protocols, .. } = content.nodes.remove(1) else {
        panic!("no container");
    };
    let PlanNode::List { content: mut entry, .. } = protocols.nodes.remove(0) else {
        panic!("no list entry");
    };
    let PlanNode::Relay(point) = entry.nodes.remove(0) else {
        panic!("no relay");
    };
    let relay = point.into_relay(format!("{PROTOCOL}[name='main']"), &filter);
    assert_eq!(
        relay.request.path,
        Some(format!("{PROTOCOL}[name='main']/ietf-bgp:bgp"))
    );
    assert_eq!(relay.request.max_depth, 4);
    assert_eq!(relay.request.exclude, vec!["x"]);
}

#[test]
fn get_of_an_invalid_path_fails() {
    let plan = get_resolved(&router(), "/nowhere".to_string(), Err("no such node"), 0, vec![]);
    match plan {
        Err(Error::YangInvalidPath(error)) => assert_eq!(error, "no such node"),
        _ => panic!("accepted"),
    }
}

#[test]
fn get_of_a_path_without_a_data_node_has_no_plan() {
    let plan: Plan<()> = get_resolved(&router(), "/nothing".to_string(), Ok(None), 0, vec![]);
    assert!(matches!(plan, Ok(None)));
}

// ===== paths =====

/// Knows the paths of the routing schema, and keeps count of the questions.
struct Paths {
    asked: Cell<usize>,
}

fn paths() -> Paths {
    Paths {
        asked: Cell::new(0),
    }
}

impl YangContext for Paths {
    type Error = String;

    fn resolve(&self, path: &str) -> Result<Option<Target>, String> {
        self.asked.set(self.asked.get() + 1);
        match path {
            ROUTING => Ok(Some(top())),
            "/ietf-routing:routing/ribs/rib[name='v4']" => Ok(Some(Target {
                inclusive_ancestors: rib_path("v4"),
                snode: rib_schema(),
            })),
            "/ietf-routing:routing/ribs" => Ok(Some(Target {
                inclusive_ancestors: ribs_path(),
                snode: routing_schema().children.remove(3),
            })),
            "/nothing" => Ok(None),
            _ => Err(format!("no such node: {path}")),
        }
    }

    fn find_below(&self, parent: &Target, terminal: &str) -> Option<SchemaNode> {
        self.asked.set(self.asked.get() + 1);
        let mut children = routing_schema().children;
        match (parent.snode.name.as_str(), terminal) {
            ("ribs", "rib") => Some(rib_schema()),
            ("routing", "ribs") => Some(children.remove(3)),
            _ => None,
        }
    }
}

fn get(path: &str, max_depth: u32, exclude: &[&str]) -> Plan<String> {
    let exclude = exclude.iter().map(|e| e.to_string()).collect();
    process_get(&router(), &paths(), path.to_string(), max_depth, exclude)
}

#[test]
fn get_asks_what_its_path_names() {
    match get(ROUTING, 2, &["ribs"]) {
        Ok(Some(GetPlan::Local { path, content, .. })) => {
            assert_eq!(path, ROUTING);
            assert_eq!(show(&content), get_top(2, &["ribs"]));
        }
        _ => panic!("not served locally"),
    }
    match get("/ietf-routing:routing/ribs/rib[name='v4']", 1, &[]) {
        Ok(Some(GetPlan::Local { path, content, .. })) => {
            assert_eq!(path, "/ietf-routing:routing/ribs/rib[name='v4']");
            assert_eq!(show(&content), "-routes()");
        }
        _ => panic!("not served locally"),
    }
    assert!(matches!(get("/nothing", 0, &[]), Ok(None)));
    match get("/nowhere", 0, &[]) {
        Err(Error::YangInvalidPath(error)) => assert_eq!(error, "no such node: /nowhere"),
        _ => panic!("accepted"),
    }
}

#[test]
fn stream_asks_for_the_list_below_the_parent_path() {
    let router = router();
    let paths = paths();
    let stream = process_stream_get(&router, &paths, stream_request(RIB, 0));
    let StreamGet::Entries(stream) = stream else {
        panic!("nothing to stream");
    };
    assert_eq!(paths.asked.get(), 2);
    let pending = stream.next_entry(&router).unwrap();
    assert_eq!(*pending.path(), format!("{RIB}[name='v4']"));
    // Not a list, and not to be found.
    for path in ["/ietf-routing:routing/ribs", "/ietf-routing:routing/rib"] {
        assert!(matches!(
            process_stream_get(&router, &paths, stream_request(path, 0)),
            StreamGet::Refused
        ));
    }
    assert_eq!(paths.asked.get(), 6);
    // The name of the list is not looked at below a parent that is unknown, or
    // of which no data node comes.
    for path in ["/nowhere/rib", "/nothing/rib", "/nowhere/r\0b"] {
        assert!(matches!(
            process_stream_get(&router, &paths, stream_request(path, 0)),
            StreamGet::Refused
        ));
    }
    assert_eq!(paths.asked.get(), 9);
    // A path without a slash is not even asked about.
    assert!(matches!(
        process_stream_get(&router, &paths, stream_request("rib", 0)),
        StreamGet::Refused
    ));
    assert_eq!(paths.asked.get(), 9);
}

// ===== two requests compared =====

/// The data that a plan leaves, one line for each data node.
fn data(content: &Subtree<String>, at: &str) -> Vec<String> {
    let mut lines = vec![];
    for node in &content.nodes {
        match node {
            PlanNode::List { name, keys, content, .. } => {
                let at = format!("{at}/{name}{keys}");
                lines.push(format!("{at} {:?}", show_terms(&content.terms)));
                lines.extend(data(content, &at));
            }
            PlanNode::Container { name, content, kept: true, .. } => {
                let at = format!("{at}/{name}");
                lines.push(format!("{at} {:?}", show_terms(&content.terms)));
                lines.extend(data(content, &at));
            }
            _ => {}
        }
    }
    lines
}

fn get_data(max_depth: u32, exclude: &[&str]) -> Vec<String> {
    match get(ROUTING, max_depth, exclude) {
        Ok(Some(GetPlan::Local { content, .. })) => data(&content, ""),
        _ => panic!("not served locally"),
    }
}

fn is_part(less: &[String], more: &[String]) -> bool {
    let mut more = more.iter();
    less.iter().all(|line| more.any(|other| other == line))
}

#[test]
fn more_levels_give_no_less() {
    for depth in 1..6 {
        assert!(is_part(&get_data(depth, &[]), &get_data(depth + 1, &[])));
        assert!(is_part(&get_data(depth, &[]), &get_data(0, &[])));
    }
    assert_eq!(get_data(1, &[]).len(), 0);
    assert_eq!(get_data(2, &[]).len(), 5);
    assert_eq!(get_data(0, &[]).len(), 9);
}

#[test]
fn more_exclude_entries_give_no_more() {
    let all = get_data(0, &[]);
    let some = get_data(0, &["routes"]);
    let few = get_data(0, &["routes", "control-plane-protocols"]);
    assert!(is_part(&some, &all) && is_part(&few, &some));
    assert_eq!((all.len(), some.len(), few.len()), (9, 6, 4));
}

#[test]
fn exclude_entries_are_a_set() {
    let data = get_data(0, &["routes", "statistics"]);
    assert_eq!(get_data(0, &["statistics", "routes"]), data);
    assert_eq!(get_data(0, &["routes", "statistics", "routes"]), data);
}

#[test]
fn idle_exclude_entries_change_nothing() {
    // The name of a leaf, of a choice, of the requested node and of nothing.
    let idle = ["router-id", "active", "details", "routing", "nothing"];
    assert_eq!(get_top(0, &idle), get_top(0, &[]));
}

#[test]
fn streamed_entry_is_a_get_with_the_leaves_of_the_entry() {
    let router = router();
    for depth in 0..4 {
        let request = stream_request(RIB, depth);
        let exclude = request.exclude.clone();
        let StreamGet::Entries(stream) = process_stream_get(&router, &paths(), request) else {
            panic!("nothing to stream");
        };
        let pending = stream.next_entry(&router).unwrap();
        let path = pending.path().clone();
        let content = pending.placed(&router, true).1.unwrap();
        let got = match process_get(&router, &paths(), path, depth, exclude) {
            Ok(Some(GetPlan::Local { content, .. })) => content,
            _ => panic!("not served locally"),
        };
        assert_eq!(show_terms(&content.terms), vec!["active=true"]);
        assert_eq!(got.terms.len(), 0);
        assert_eq!(data(&content, ""), data(&got, ""));
    }
}

#[test]
fn without_tasks_nothing_is_relayed() {
    let mut router = router();
    router.protocols.clear();
    let plan = get_resolved(&router, ROUTING.to_string(), Ok(Some(top())), 0, vec![]);
    assert!(!local(plan).contains(" to task "));
}

#[test]
fn get_without_a_path_is_about_the_top_level_node() {
    assert_eq!(request_path(&router(), None), ROUTING);
    assert_eq!(request_path(&router(), Some("/a".to_string())), "/a");
}

#[test]
fn replies_are_taken_in_order() {
    let mut replies = Replies::new(2);
    assert_eq!(replies.due(), Some(0));
    assert!(replies.settle::<()>(Ok(Ok(()))).is_ok());
    assert_eq!(replies.due(), Some(1));
    assert!(replies.settle::<()>(Ok(Ok(()))).is_ok());
    assert_eq!(replies.due(), None);
    assert_eq!(Replies::new(0).due(), None);
}

#[test]
fn first_failed_reply_fails_the_request() {
    let mut replies = Replies::new(3);
    assert!(replies.settle::<&str>(Ok(Ok(()))).is_ok());
    match replies.settle(Ok(Err("does not merge"))) {
        Err(Error::YangInvalidData(error)) => assert_eq!(error, "does not merge"),
        _ => panic!("accepted"),
    }
    assert_eq!(replies.merged, 1);
    match replies.settle(Err(Error::YangInvalidPath("bad path"))) {
        Err(Error::YangInvalidPath(error)) => assert_eq!(error, "bad path"),
        _ => panic!("accepted"),
    }
    assert_eq!(replies.merged, 1);
}

// ===== the walk =====

#[test]
fn steps_come_after_what_is_there() {
    let router = router();
    let mut dnode = Subtree {
        terms: vec![term("a", "1")],
        nodes: vec![],
    };
    iterate_list(&router, &mut dnode, &protocol_schema(), &Entry::Root, &no_filter(), 0);
    iterate_node(
        &router,
        &mut dnode,
        &routing_schema(),
        &Entry::Root,
        true,
        &GetFilter {
            max_depth: 1,
            exclude: vec!["ribs".to_string(), "interfaces".to_string()],
        },
        0,
    );
    assert_eq!(
        show(&dnode),
        "a=1 router-id=1.1.1.1 control-plane-protocol[name='main'](ietf-bgp:bgp@0 to task main) \
         -control-plane-protocols()"
    );
}

#[test]
fn only_the_first_container_is_the_data_node_itself() {
    let router = router();
    let filter = GetFilter {
        max_depth: 1,
        exclude: vec![],
    };
    let mut dnode = Subtree::new();
    iterate_node(&router, &mut dnode, &routing_schema(), &Entry::Root, false, &filter, 1);
    assert_eq!(show(&dnode), "routing(router-id=1.1.1.1)");
    let mut dnode = Subtree::new();
    iterate_node(&router, &mut dnode, &routing_schema(), &Entry::Root, true, &filter, 1);
    assert_eq!(show(&dnode), "router-id=1.1.1.1");
}

#[test]
fn lists_without_an_iterator_or_table_entry_are_empty() {
    let router = router();
    let mut dnode = Subtree::new();
    let routes = rib_schema().children.remove(1);
    iterate_children(&router, &mut dnode, &routes, &Entry::Root, &no_filter(), 0);
    assert_eq!(show(&dnode), "");
    let unknown = schema_node(SchemaNodeKind::List, "m", "unknown", "/m:x", vec![]);
    iterate_list(&router, &mut dnode, &unknown, &Entry::Root, &no_filter(), 0);
    assert_eq!(show(&dnode), "");
    assert!(dnode.is_empty());
}

#[test]
fn content_is_empty_if_nothing_is_left_of_it() {
    let container = |kept| PlanNode::Container {
        module: "m".to_string(),
        name: "c".to_string(),
        content: Subtree::<()>::new(),
        kept,
    };
    let mut content = Subtree::new();
    assert!(content.is_empty());
    content.push(container(false));
    assert!(content.is_empty());
    content.push(container(true));
    assert!(!content.is_empty());
    let leaves = Subtree::<()> {
        terms: vec![term("a", "1")],
        nodes: vec![],
    };
    assert!(!leaves.is_empty());
}

#[test]
fn tables_are_looked_up_by_schema_path() {
    let rib = list_ops::<Router>(RIB).unwrap();
    assert_eq!((rib.id, rib.streamable), (1, true));
    let route = list_ops::<Router>(ROUTE).unwrap();
    assert_eq!((route.id, route.streamable), (2, false));
    let protocol = list_ops::<Router>(PROTOCOL).unwrap();
    assert_eq!((protocol.id, protocol.streamable), (0, false));
    assert!(list_ops::<Router>(ROUTING).is_none());
    assert!(list_ops::<Router>("").is_none());
    assert_eq!(container_ops::<Router>(ROUTING).unwrap().id, 0);
    assert_eq!(
        container_ops::<Router>("/ietf-routing:routing/ribs/rib/statistics")
            .unwrap()
            .id,
        2
    );
    assert!(container_ops::<Router>(RIB).is_none());
}

// ===== the list entry of a data node =====

#[test]
fn finds_the_entry_of_a_data_node() {
    let router = router();
    assert!(matches!(
        lookup_list_entry(&router, &rib_path("v6")),
        Entry::Rib(Rib { name: "v6", .. })
    ));
    let mut path = vec![path_node(SchemaNodeKind::List, ROUTE, &[("prefix", "20.0.0.0/8")])];
    path.extend(rib_path("v4"));
    assert!(matches!(
        lookup_list_entry(&router, &path),
        Entry::Route("20.0.0.0/8")
    ));
}

#[test]
fn nodes_outside_served_lists_have_the_default_entry() {
    let router = router();
    assert!(matches!(lookup_list_entry(&router, &ribs_path()), Entry::Root));
    assert!(matches!(lookup_list_entry(&router, &vec![]), Entry::Root));
    let foreign = vec![path_node(SchemaNodeKind::List, "/m:foreign", &[("k", "v")])];
    assert!(matches!(lookup_list_entry(&router, &foreign), Entry::Root));
}

#[test]
fn missing_entries_make_for_the_default_entry() {
    let router = router();
    assert!(matches!(lookup_list_entry(&router, &rib_path("v9")), Entry::Root));
    // Nothing below a missing entry is found either.
    let mut path = vec![path_node(SchemaNodeKind::List, ROUTE, &[("prefix", "10.0.0.0/8")])];
    path.extend(rib_path("v6"));
    assert!(matches!(lookup_list_entry(&router, &path), Entry::Root));
}

#[test]
fn first_entry_with_the_keys_is_found() {
    let mut router = router();
    router.ribs.push(Rib {
        name: "v4",
        routes: vec![],
        packets: None,
    });
    let ops = list_ops::<Router>(RIB).unwrap();
    let found = find_entry(&router, &ops, &Entry::Root, &"[name='v4']".to_string());
    assert!(matches!(found, Some(Entry::Rib(Rib { packets: Some(3), .. }))));
    assert!(find_entry(&router, &ops, &Entry::Root, &"[name='x']".to_string()).is_none());
    let routes = list_ops::<Router>(ROUTE).unwrap();
    assert!(find_entry(&router, &routes, &Entry::Root, &String::new()).is_none());
}

#[test]
fn lookup_is_steady() {
    let router = router();
    let name = || match lookup_list_entry(&router, &rib_path("v6")) {
        Entry::Rib(rib) => rib.name,
        _ => panic!("not a RIB"),
    };
    assert_eq!((name(), name()), ("v6", "v6"));
}

#[test]
fn search_draws_no_entry_after_the_match() {
    let router = router();
    let ops = list_ops::<Router>(RIB).unwrap();
    assert!(find_entry(&router, &ops, &Entry::Root, &"[name='v4']".to_string()).is_some());
    assert_eq!(router.drawn.get(), 1);
    assert!(find_entry(&router, &ops, &Entry::Root, &"[name='x']".to_string()).is_none());
    assert_eq!(router.drawn.get(), 3);
}

// ===== StreamGet =====

fn stream_request(path: &str, max_depth: u32) -> StreamGetRequest {
    StreamGetRequest {
        path: path.to_string(),
        max_depth,
        exclude: vec!["statistics".to_string()],
    }
}

fn rib_target() -> Option<Target> {
    Some(Target {
        inclusive_ancestors: ribs_path(),
        snode: rib_schema(),
    })
}

#[test]
fn stream_goes_through_the_entries() {
    let router = router();
    let StreamGet::Entries(mut stream) =
        stream_resolved(&router, stream_request(RIB, 0), rib_target())
    else {
        panic!("nothing to stream");
    };
    assert_eq!(stream.filter().exclude, vec!["statistics"]);
    let mut delivered = vec![];
    while let Some(pending) = stream.next_entry(&router) {
        let path = pending.path().clone();
        let (rest, content) = pending.placed(&router, true);
        delivered.push((path, show(&content.unwrap())));
        stream = rest.sent(true).unwrap();
    }
    assert_eq!(
        delivered,
        vec![
            (
                format!("{RIB}[name='v4']"),
                "active=true routes(route[prefix='10.0.0.0/8'](metric=10) \
                 route[prefix='20.0.0.0/8'](metric=10))"
                    .to_string()
            ),
            (
                format!("{RIB}[name='v6']"),
                "active=true -routes()".to_string()
            ),
        ]
    );
}

#[test]
fn stream_draws_one_entry_at_a_time() {
    let router = router();
    let StreamGet::Entries(stream) =
        stream_resolved(&router, stream_request(RIB, 0), rib_target())
    else {
        panic!("nothing to stream");
    };
    assert_eq!(router.drawn.get(), 0);
    let pending = stream.next_entry(&router).unwrap();
    assert_eq!(router.drawn.get(), 1);
    let (stream, _) = pending.placed(&router, false);
    assert_eq!(router.drawn.get(), 1);
    assert!(stream.next_entry(&router).is_some());
    assert_eq!(router.drawn.get(), 2);
}

#[test]
fn failed_replies_add_nothing_to_an_entry() {
    type Reply = Result<Result<u8, &'static str>, ()>;
    assert_eq!(reply_data(Reply::Ok(Ok(5))), Some(5));
    assert_eq!(reply_data(Reply::Ok(Err("failed"))), None);
    assert_eq!(reply_data(Reply::Err(())), None);
}

#[test]
fn stream_applies_the_depth_limit_to_each_entry() {
    let router = router();
    let StreamGet::Entries(stream) =
        stream_resolved(&router, stream_request(RIB, 1), rib_target())
    else {
        panic!("nothing to stream");
    };
    let pending = stream.next_entry(&router).unwrap();
    let (_, content) = pending.placed(&router, true);
    assert_eq!(show(&content.unwrap()), "active=true -routes()");
}

#[test]
fn stream_passes_over_entries_without_a_data_node() {
    let router = router();
    let StreamGet::Entries(stream) =
        stream_resolved(&router, stream_request(RIB, 0), rib_target())
    else {
        panic!("nothing to stream");
    };
    let pending = stream.next_entry(&router).unwrap();
    let (stream, content) = pending.placed(&router, false);
    assert!(content.is_none());
    let pending = stream.next_entry(&router).unwrap();
    assert_eq!(*pending.path(), format!("{RIB}[name='v6']"));
    let (stream, _) = pending.placed(&router, false);
    assert!(stream.next_entry(&router).is_none());
}

#[test]
fn stream_ends_when_the_client_is_gone() {
    let router = router();
    let StreamGet::Entries(stream) =
        stream_resolved(&router, stream_request(RIB, 0), rib_target())
    else {
        panic!("nothing to stream");
    };
    let (stream, _) = stream.next_entry(&router).unwrap().placed(&router, true);
    assert!(stream.sent(false).is_none());
}

#[test]
fn stream_of_an_empty_list_ends_at_once() {
    let mut router = router();
    router.ribs.clear();
    let StreamGet::Entries(stream) =
        stream_resolved(&router, stream_request(RIB, 0), rib_target())
    else {
        panic!("nothing to stream");
    };
    assert!(stream.next_entry(&router).is_none());
}

#[test]
fn stream_is_refused_without_a_streamable_list() {
    let router = router();
    let refused = |target| {
        matches!(
            stream_resolved(&router, stream_request("/x", 0), target),
            StreamGet::Refused
        )
    };
    // The path names nothing.
    assert!(refused(None));
    // Not a list.
    assert!(refused(Some(top())));
    // Not streamable.
    assert!(refused(Some(Target {
        inclusive_ancestors: vec![],
        snode: protocol_schema(),
    })));
    // Neither this provider nor another task has the list.
    assert!(refused(Some(Target {
        inclusive_ancestors: rib_path("v4"),
        snode: schema_node(SchemaNodeKind::List, "ietf-bgp", "neighbor", "/ietf-bgp:bgp", vec![]),
    })));
}

#[test]
fn stream_of_a_list_of_another_task_is_forwarded_unchanged() {
    let router = router();
    let target = Target {
        inclusive_ancestors: protocol_path("main"),
        snode: schema_node(SchemaNodeKind::List, "ietf-bgp", "neighbor", "/ietf-bgp:bgp", vec![]),
    };
    let path = format!("{PROTOCOL}[name='main']/ietf-bgp:bgp/neighbor");
    let stream = stream_resolved(&router, stream_request(&path, 2), Some(target));
    match stream {
        StreamGet::Forward { nb_tx, request } => {
            assert_eq!(nb_tx, "task main");
            assert_eq!(request.path, path);
            assert_eq!(request.max_depth, 2);
            assert_eq!(request.exclude, vec!["statistics"]);
        }
        _ => panic!("not forwarded"),
    }
}

#[test]
fn list_entries_have_no_task_by_default() {
    #[derive(Debug, Default)]
    struct Plain;
    impl ListEntryKind for Plain {
        type Task = u8;
    }
    assert!(Plain.child_task("ietf-bgp").is_none());
    assert!(!ProtocolList::STREAMABLE);
}
