use xuehua::builder::{Builder, BuilderOptions, BuildState};
use xuehua::package::{Dependency, LinkTime, Metadata};
use xuehua::planner::{PackageDef, Planner};
use xuehua::store::{find_cached, hash_directory, package_key, DirEntry, DirTree, Store};

fn def(name: &str, deps: Vec<Dependency>) -> PackageDef {
    PackageDef {
        name: String::from(name),
        metadata: Metadata,
        config: String::from("null"),
        build: 0,
        apply: 0,
        dependencies: deps,
    }
}

fn options(concurrent: usize) -> BuilderOptions {
    BuilderOptions { concurrent, root: String::from("builds") }
}

fn artifact_for(node: usize) -> DirTree {
    DirTree {
        entries: vec![DirEntry {
            path: b"output/result".to_vec(),
            mode: 0o644,
            gid: 0,
            uid: 0,
            contents: format!("artifact of node {}", node).into_bytes(),
        }],
    }
}

#[test]
fn two_package_build_order_and_closure() {
    let mut planner = Planner::new();
    let p2 = planner.package(def("p2", Vec::new())).unwrap();
    let p1 = planner
        .package(def("p1", vec![Dependency { node: p2, time: LinkTime::Runtime }]))
        .unwrap();
    let Planner { plan, .. } = planner;
    let mut b = Builder::new(plan, p1, options(4));

    // Only the leaf is ready at first.
    let first = b.next_task().expect("a leaf should be ready");
    assert_eq!(first, p2);
    assert!(b.next_task().is_none());
    b.finish_success(first);

    let second = b.next_task().expect("the parent should now be ready");
    assert_eq!(second, p1);
    b.finish_success(second);
    assert!(b.done());

    let closure = b.built_runtime(p1);
    assert!(closure.contains(&p1));
    assert!(closure.contains(&p2));
    assert!(closure.iter().all(|n| *n == p1 || *n == p2));
}

#[test]
fn parallel_fan_out_respects_concurrency() {
    let mut planner = Planner::new();
    let mut deps = Vec::new();
    for i in 0..100 {
        let leaf = planner.package(def(&format!("leaf{}", i), Vec::new())).unwrap();
        deps.push(Dependency { node: leaf, time: LinkTime::Runtime });
    }
    let root = planner.package(def("root", deps)).unwrap();
    let Planner { plan, .. } = planner;
    let mut b = Builder::new(plan, root, options(8));

    let mut completed = 0usize;
    let mut max_in_flight = 0usize;
    let mut in_flight: Vec<usize> = Vec::new();
    loop {
        while let Some(n) = b.next_task() {
            in_flight.push(n);
            assert!(b.building <= 8, "more than 8 builds in flight");
        }
        if in_flight.is_empty() {
            break;
        }
        if in_flight.len() > max_in_flight {
            max_in_flight = in_flight.len();
        }
        let n = in_flight.remove(0);
        b.finish_success(n);
        completed += 1;
    }
    assert!(b.done());
    assert_eq!(completed, 101);
    assert_eq!(max_in_flight, 8);
    let closure = b.built_runtime(root);
    for i in 0..101 {
        assert!(closure.contains(&i));
    }
}

#[test]
fn partial_failure_isolation() {
    let mut planner = Planner::new();
    let a = planner.package(def("a", Vec::new())).unwrap();
    let bb = planner.package(def("b", Vec::new())).unwrap();
    let target = planner
        .package(def(
            "target",
            vec![
                Dependency { node: a, time: LinkTime::Runtime },
                Dependency { node: bb, time: LinkTime::Runtime },
            ],
        ))
        .unwrap();
    let Planner { plan, .. } = planner;
    let mut store = Store::new();
    let mut b = Builder::new(plan, target, options(2));

    let first = b.next_task().expect("two leaves are ready");
    let second = b.next_task().expect("two leaves are ready");
    assert!(b.next_task().is_none());

    // `a`'s build raises; `b`'s build completes and lands in the store.
    for n in [first, second] {
        if n == a {
            b.finish_failure(n);
        } else {
            let artifact = store.register_artifact(artifact_for(n));
            store.register_package(b.plan.node(n), &b.plan.dependency_ids(n), &artifact);
            b.finish_success(n);
        }
    }

    // The target never becomes ready, and the run drains normally.
    assert!(b.next_task().is_none());
    assert!(b.done());
    assert!(matches!(b.state_of(a), BuildState::Unbuilt { remaining: 0 }));
    assert!(matches!(b.state_of(bb), BuildState::Built { .. }));
    assert!(matches!(b.state_of(target), BuildState::Unbuilt { .. }));
    // Only `b`'s artifact was registered.
    assert_eq!(store.artifacts.len(), 1);
    assert_eq!(store.packages_of(&b.plan.node(bb).id).len(), 1);
    assert_eq!(store.packages_of(&b.plan.node(a).id).len(), 0);
    assert_eq!(store.packages_of(&b.plan.node(target).id).len(), 0);
}

#[test]
fn buildtime_only_stays_out_of_runtime_closure() {
    let mut planner = Planner::new();
    let libc = planner.package(def("libc", Vec::new())).unwrap();
    let compiler = planner
        .package(def("compiler", vec![Dependency { node: libc, time: LinkTime::Runtime }]))
        .unwrap();
    let target = planner
        .package(def("target", vec![Dependency { node: compiler, time: LinkTime::Buildtime }]))
        .unwrap();
    let Planner { plan, .. } = planner;
    let mut b = Builder::new(plan, target, options(1));

    let n1 = b.next_task().unwrap();
    assert_eq!(n1, libc);
    b.finish_success(n1);
    let n2 = b.next_task().unwrap();
    assert_eq!(n2, compiler);
    b.finish_success(n2);
    let n3 = b.next_task().unwrap();
    assert_eq!(n3, target);

    // The build of `target` receives compiler and libc as dependencies.
    let (runtime_in, buildtime_in) = b.dependency_closure(n3);
    assert!(runtime_in.is_empty());
    assert!(buildtime_in.contains(&compiler));
    assert!(buildtime_in.contains(&libc));

    b.finish_success(n3);
    assert!(b.done());
    // But the runtime closure of `target` is only itself.
    let closure = b.built_runtime(target);
    assert!(closure.contains(&target));
    assert!(closure.iter().all(|n| *n == target));
}

#[test]
fn cache_reuse_skips_dispatches() {
    let mut store = Store::new();
    let mut dispatches_per_run = Vec::new();

    for _ in 0..2 {
        let mut planner = Planner::new();
        let p2 = planner.package(def("p2", Vec::new())).unwrap();
        let p1 = planner
            .package(def("p1", vec![Dependency { node: p2, time: LinkTime::Runtime }]))
            .unwrap();
        let Planner { plan, .. } = planner;
        let mut b = Builder::new(plan, p1, options(4));
        let mut dispatches = 0usize;
        while let Some(n) = b.next_task() {
            let pkg = b.plan.node(n);
            let dep_ids = b.plan.dependency_ids(n);
            let key = package_key(pkg, &dep_ids);
            let bindings = store.packages_of(&pkg.id);
            match find_cached(&bindings, &key) {
                Some(_) => {
                    // Cache hit: adopt the stored artifact, no dispatch.
                },
                None => {
                    // Cache miss: "build" the package and register it.
                    dispatches += 1;
                    let artifact = store.register_artifact(artifact_for(n));
                    store.register_package(b.plan.node(n), &dep_ids, &artifact);
                },
            }
            b.finish_success(n);
        }
        assert!(b.done());
        let closure = b.built_runtime(p1).clone();
        assert!(closure.contains(&p1) && closure.contains(&p2));
        dispatches_per_run.push(dispatches);
    }

    assert_eq!(dispatches_per_run[0], 2);
    assert_eq!(dispatches_per_run[1], 0, "the second run must hit the cache for both packages");
}

#[test]
fn artifact_registration_is_idempotent_per_content() {
    let mut store = Store::new();
    let h1 = store.register_artifact(artifact_for(3));
    let h2 = store.register_artifact(artifact_for(3));
    assert_eq!(h1.bytes, h2.bytes);
    assert_eq!(store.artifacts.len(), 1);
    let expected = hash_directory(&artifact_for(3));
    assert_eq!(h1.bytes, expected.bytes);
}

#[test]
fn changed_dependencies_change_the_structural_key() {
    let mut planner = Planner::new();
    let p2 = planner.package(def("p2", Vec::new())).unwrap();
    let p1 = planner
        .package(def("p1", vec![Dependency { node: p2, time: LinkTime::Runtime }]))
        .unwrap();
    let Planner { plan, .. } = planner;
    // The same identity and configuration, once with and once without the
    // resolved dependency list, must not share a cache key.
    let with_deps = package_key(plan.node(p1), &plan.dependency_ids(p1));
    let without_deps = package_key(plan.node(p1), &Vec::new());
    assert_ne!(with_deps, without_deps);
    let again = package_key(plan.node(p1), &plan.dependency_ids(p1));
    assert_eq!(with_deps, again);
}
