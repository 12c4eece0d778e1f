use xuehua::manifest::Manifest;
use xuehua::package::{Metadata, Package, PackageId};
use xuehua::plan::Plan;
use xuehua::store::{hash_directory, ArtifactId, DirEntry, DirTree, Store};

fn sample_tree() -> DirTree {
    DirTree {
        entries: vec![
            DirEntry {
                path: b"bin/app".to_vec(),
                mode: 0o755,
                gid: 10,
                uid: 1000,
                contents: b"#!/bin/sh\necho hi\n".to_vec(),
            },
            DirEntry {
                path: b"share/doc".to_vec(),
                mode: 0o644,
                gid: 0,
                uid: 0,
                contents: b"docs".to_vec(),
            },
        ],
    }
}

fn pkg(name: &str, config: &str) -> Package {
    Package {
        id: PackageId { name: String::from(name), namespace: vec![String::from("core")] },
        metadata: Metadata,
        config: String::from(config),
        build: 0,
        apply: 0,
    }
}

/// The canonical serialization of a directory, written out by hand: each
/// file's path, big-endian mode, group, user and length, then contents.
fn canonical_bytes(tree: &DirTree) -> Vec<u8> {
    let mut out = Vec::new();
    for e in &tree.entries {
        out.extend_from_slice(&e.path);
        out.extend_from_slice(&e.mode.to_be_bytes());
        out.extend_from_slice(&e.gid.to_be_bytes());
        out.extend_from_slice(&e.uid.to_be_bytes());
        out.extend_from_slice(&(e.contents.len() as u64).to_be_bytes());
        out.extend_from_slice(&e.contents);
    }
    out
}

#[test]
fn hash_directory_matches_reference_hasher() {
    // The library's digest must agree with the hash function applied to
    // the canonical serialization directly.
    let tree = sample_tree();
    let ours = hash_directory(&tree);
    let reference = blake3::hash(&canonical_bytes(&tree));
    assert_eq!(ours.bytes.as_slice(), reference.as_bytes());
    assert_eq!(ours.to_hex(), reference.to_hex().as_str());
}

#[test]
fn empty_directory_hashes_to_empty_input_digest() {
    let empty = DirTree { entries: Vec::new() };
    let ours = hash_directory(&empty);
    let reference = blake3::hash(b"");
    assert_eq!(ours.bytes.as_slice(), reference.as_bytes());
}

#[test]
fn identical_content_gets_identical_ids() {
    let mut store = Store::new();
    let h1 = store.register_artifact(sample_tree());
    let h2 = store.register_artifact(sample_tree());
    assert_eq!(h1.bytes, h2.bytes);
    assert_eq!(store.artifacts.len(), 1);
}

#[test]
fn register_returns_the_directory_hash() {
    let mut store = Store::new();
    let h = store.register_artifact(sample_tree());
    assert_eq!(h.bytes, hash_directory(&sample_tree()).bytes);
}

#[test]
fn content_round_trips_through_the_hash() {
    let mut store = Store::new();
    let h = store.register_artifact(sample_tree());
    let content = store.content(&h).expect("registered content should resolve");
    assert_eq!(hash_directory(content).bytes, h.bytes);
    let record = store.artifact(&h).expect("registered artifact should resolve");
    assert_eq!(record.artifact.bytes, h.bytes);

    let absent = ArtifactId { bytes: vec![0u8; 32] };
    assert!(store.content(&absent).is_none());
    assert!(store.artifact(&absent).is_none());
}

#[test]
fn bindings_come_back_most_recent_first() {
    let mut store = Store::new();
    let h1 = store.register_artifact(sample_tree());
    let h2 = store.register_artifact(DirTree { entries: Vec::new() });
    let p_old = pkg("app", "null");
    let p_new = pkg("app", "{\"opt\":1}");
    let b1 = store.register_package(&p_old, &Vec::new(), &h1);
    let b2 = store.register_package(&p_new, &Vec::new(), &h2);
    assert!(b1.created_at < b2.created_at);

    let bindings = store.packages_of(&p_old.id);
    assert_eq!(bindings.len(), 2);
    // Most recent first.
    assert_eq!(bindings[0].artifact.bytes, h2.bytes);
    assert_eq!(bindings[1].artifact.bytes, h1.bytes);
    assert!(bindings[0].created_at >= bindings[1].created_at);

    let other = PackageId { name: String::from("other"), namespace: Vec::new() };
    assert_eq!(store.packages_of(&other).len(), 0);
}

#[test]
fn package_binding_registration_is_idempotent() {
    let mut store = Store::new();
    let h = store.register_artifact(sample_tree());
    let p = pkg("app", "null");
    store.register_package(&p, &Vec::new(), &h);
    store.register_package(&p, &Vec::new(), &h);
    assert_eq!(store.packages_of(&p.id).len(), 1);
}

#[test]
fn artifact_id_hex_rendering() {
    let id = ArtifactId { bytes: vec![0x00, 0x01, 0x0a, 0xff] };
    assert_eq!(id.to_hex(), "00010aff");
}

#[test]
fn manifest_resolves_current_bindings() {
    let mut plan = Plan::new();
    let bound = plan.add_node(pkg("bound", "null"));
    let unbound = plan.add_node(pkg("unbound", "null"));

    let mut store = Store::new();
    let h1 = store.register_artifact(sample_tree());
    store.register_package(plan.node(bound), &plan.dependency_ids(bound), &h1);

    let manifest = Manifest::create(&plan, &store);
    assert_eq!(manifest.entries.len(), 1);
    assert!(manifest.lookup(&plan.node(bound).id).is_some());
    assert!(manifest.lookup(&plan.node(unbound).id).is_none());
    assert_eq!(manifest.entries[0].1.bytes, h1.bytes);

    // A newer binding of the same package wins on update.
    let h2 = store.register_artifact(DirTree { entries: Vec::new() });
    store.register_package(&pkg("bound", "{\"v\":2}"), &Vec::new(), &h2);
    let refreshed = manifest.update(&store);
    assert_eq!(refreshed.entries.len(), 1);
    assert_eq!(refreshed.entries[0].1.bytes, h2.bytes);
}
