use xuehua::package::{Dependency, DependencyType, LinkTime, Metadata, PackageId};
use xuehua::recipe::{Dependencies, Id, PackageDependency};
use xuehua::plan::{Plan, PlanError};
use xuehua::planner::{Error, PackageDef, Planner};

fn def(name: &str, deps: Vec<Dependency>) -> PackageDef {
    PackageDef {
        name: String::from(name),
        metadata: Metadata,
        config: String::from("null"),
        build: 0,
        apply: 0,
        dependencies: deps,
    }
}

#[test]
fn minimal_two_package_plan() {
    let mut planner = Planner::new();
    let p2 = planner.package(def("p2", Vec::new())).expect("p2 should register");
    let p1 = planner
        .package(def("p1", vec![Dependency { node: p2, time: LinkTime::Runtime }]))
        .expect("p1 should register");
    let plan = planner.plan();
    assert_eq!(plan.len(), 2);
    let edges = plan.edges_of(p1);
    assert_eq!(edges.len(), 1);
    assert_eq!(edges[0].to, p2);
    assert_eq!(edges[0].time, LinkTime::Runtime);
    assert_eq!(plan.edges_of(p2).len(), 0);
    assert_eq!(plan.node(p1).id.render(), "p1@");
    assert_eq!(plan.node(p2).id.render(), "p2@");
}

#[test]
fn cycle_rejection() {
    let mut plan = Plan::new();
    let a = plan.add_node(xuehua::package::Package {
        id: PackageId { name: String::from("a"), namespace: Vec::new() },
        metadata: Metadata,
        config: String::from("null"),
        build: 0,
        apply: 0,
    });
    let b = plan.add_node(xuehua::package::Package {
        id: PackageId { name: String::from("b"), namespace: Vec::new() },
        metadata: Metadata,
        config: String::from("null"),
        build: 0,
        apply: 0,
    });
    // b depends on a; closing the loop from a back to b must fail.
    plan.try_add_edge(b, a, LinkTime::Runtime).expect("first edge should insert");
    match plan.try_add_edge(a, b, LinkTime::Runtime) {
        Err(PlanError::Cycle { from, to }) => {
            assert_eq!(from, a);
            assert_eq!(to, b);
            assert_eq!(plan.node(from).id.render(), "a@");
            assert_eq!(plan.node(to).id.render(), "b@");
        },
        other => panic!("expected a cycle rejection, got {:?}", other),
    }
    // The rejected edge left no trace.
    assert_eq!(plan.edges_of(a).len(), 0);
    assert_eq!(plan.edges_of(b).len(), 1);
}

#[test]
fn edge_to_unknown_node_is_not_found() {
    let mut plan = Plan::new();
    let a = plan.add_node(xuehua::package::Package {
        id: PackageId { name: String::from("a"), namespace: Vec::new() },
        metadata: Metadata,
        config: String::from("null"),
        build: 0,
        apply: 0,
    });
    match plan.try_add_edge(a, 5, LinkTime::Runtime) {
        Err(PlanError::NotFound { node }) => assert_eq!(node, 5),
        other => panic!("expected not-found, got {:?}", other),
    }
}

#[test]
fn self_dependency_is_a_cycle() {
    let mut planner = Planner::new();
    // The only handle a script can forge into a cycle is the package's own
    // upcoming handle.
    match planner.package(def("a", vec![Dependency { node: 0, time: LinkTime::Runtime }])) {
        Err(Error::Cycle { from, to }) => {
            assert_eq!(from.render(), "a@");
            assert_eq!(to.render(), "a@");
        },
        other => panic!("expected a cycle rejection, got {:?}", other.map(|_| ())),
    }
}

#[test]
fn duplicate_id_conflicts() {
    let mut planner = Planner::new();
    planner.package(def("dup", Vec::new())).expect("first registration should pass");
    match planner.package(def("dup", Vec::new())) {
        Err(Error::Conflict { package }) => assert_eq!(package.render(), "dup@"),
        other => panic!("expected a conflict, got {:?}", other.map(|_| ())),
    }
    assert_eq!(planner.plan().len(), 1);
}

#[test]
fn unknown_dependency_handle_is_not_found() {
    let mut planner = Planner::new();
    match planner.package(def("x", vec![Dependency { node: 7, time: LinkTime::Buildtime }])) {
        Err(Error::NotFound { node }) => assert_eq!(node, 7),
        other => panic!("expected not-found, got {:?}", other.map(|_| ())),
    }
}

#[test]
fn namespaces_scope_identifiers() {
    let mut planner = Planner::new();
    planner.push_namespace(String::from("core"));
    planner.push_namespace(String::from("tools"));
    let h = planner.package(def("grep", Vec::new())).expect("should register");
    planner.pop_namespace();
    let h2 = planner.package(def("grep", Vec::new())).expect("should register under core");
    planner.pop_namespace();
    assert_eq!(planner.plan().node(h).id.render(), "grep@core/tools");
    assert_eq!(planner.plan().node(h2).id.render(), "grep@core");
}

#[test]
fn configure_clones_and_renames() {
    let mut planner = Planner::new();
    planner.push_namespace(String::from("apps"));
    let base = planner.package(def("editor", Vec::new())).expect("base should register");
    let derived = planner
        .configure(base, String::from("editor-small"), String::from("{\"small\":true}"), 9, vec![
            Dependency { node: base, time: LinkTime::Buildtime },
        ])
        .expect("configured clone should register");
    let plan = planner.plan();
    // The clone keeps the source's namespace, not the current stack.
    assert_eq!(plan.node(derived).id.render(), "editor-small@apps");
    assert_eq!(plan.node(derived).config, "{\"small\":true}");
    assert_eq!(plan.node(derived).build, 9);
    let edges = plan.edges_of(derived);
    assert_eq!(edges.len(), 1);
    assert_eq!(edges[0].to, base);
    assert_eq!(edges[0].time, LinkTime::Buildtime);
}

#[test]
fn package_id_parse_round_trip() {
    let id = PackageId::parse("app@core/tools").expect("should parse");
    assert_eq!(id.name, "app");
    assert_eq!(id.namespace, vec![String::from("core"), String::from("tools")]);
    assert_eq!(id.render(), "app@core/tools");

    let bare = PackageId::parse("solo@").expect("should parse");
    assert_eq!(bare.name, "solo");
    assert_eq!(bare.namespace, vec![String::new()]);

    assert!(PackageId::parse("no-delimiter").is_err());
}

#[test]
fn package_id_equality_is_by_value() {
    let a = PackageId {
        name: String::from("x"),
        namespace: vec![String::from("n")],
    };
    let b = a.duplicate();
    assert!(a.eq_to(&b));
    let c = PackageId { name: String::from("x"), namespace: vec![String::from("m")] };
    assert!(!a.eq_to(&c));
}

#[test]
fn recipe_carriers_hold_their_fields() {
    let id = Id { name: String::from("curl"), namespace: String::from("net") };
    assert_eq!(id.name, "curl");
    assert_eq!(id.namespace, "net");

    let empty = Dependencies::empty();
    assert!(empty.build.is_empty() && empty.runtime.is_empty());

    let dep = PackageDependency {
        id: String::from("zlib@libs"),
        dependency_type: DependencyType::Buildtime,
    };
    assert_eq!(dep.dependency_type, DependencyType::Buildtime);
}

#[test]
fn package_id_parse_accepts_unicode() {
    let id = PackageId::parse("caf\u{e9}@n\u{f6}rd/\u{7d05}").expect("should parse");
    assert_eq!(id.name, "caf\u{e9}");
    assert_eq!(id.namespace, vec![String::from("n\u{f6}rd"), String::from("\u{7d05}")]);
    assert_eq!(id.render(), "caf\u{e9}@n\u{f6}rd/\u{7d05}");
}
