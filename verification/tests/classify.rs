use bitsquat::classify::{
    find_matches, is_cyclical, PackageMetadata, PackageUniverse, VersionEntry,
};

fn bytes(s: &str) -> Vec<u8> {
    s.as_bytes().to_vec()
}

fn latest_manifest(deps: Vec<&str>, dev_deps: Vec<&str>) -> PackageMetadata {
    PackageMetadata {
        latest: Some(bytes("1.0.0")),
        versions: vec![VersionEntry {
            version: bytes("1.0.0"),
            dependencies: deps.into_iter().map(bytes).collect(),
            dev_dependencies: dev_deps.into_iter().map(bytes).collect(),
        }],
    }
}

#[test]
fn universe_membership_by_name() {
    let universe = PackageUniverse::new(vec![bytes("ab"), bytes("cd")]);
    assert!(universe.contains(&bytes("cd")));
    assert!(!universe.contains(&bytes("ce")));
    assert!(!universe.contains(&bytes("c")));
}

#[test]
fn end_to_end_single_match() {
    let universe = PackageUniverse::new(vec![bytes("Ab")]);
    let targets = vec![bytes("ab")];
    let found = find_matches(&targets, &universe);
    assert_eq!(found.len(), 1);
    assert_eq!(found[0].flipped, bytes("Ab"));
    assert_eq!(found[0].original, bytes("ab"));
}

#[test]
fn no_match_outside_universe() {
    let universe = PackageUniverse::new(vec![bytes("zz")]);
    let found = find_matches(&vec![bytes("ab")], &universe);
    assert!(found.is_empty());
}

#[test]
fn repeated_targets_report_repeated_matches() {
    let universe = PackageUniverse::new(vec![bytes("Ab")]);
    let found = find_matches(&vec![bytes("ab"), bytes("ab")], &universe);
    assert_eq!(found.len(), 2);
    assert_eq!(found[0].flipped, bytes("Ab"));
    assert_eq!(found[1].flipped, bytes("Ab"));
}

#[test]
fn cyclical_when_latest_depends_on_original() {
    let metadata = Some(latest_manifest(vec!["ab", "other"], vec![]));
    assert!(is_cyclical(&metadata, &bytes("ab")));
}

#[test]
fn cyclical_via_dev_dependencies() {
    let metadata = Some(latest_manifest(vec![], vec!["ab"]));
    assert!(is_cyclical(&metadata, &bytes("ab")));
}

#[test]
fn not_cyclical_when_dependencies_empty() {
    let metadata = Some(latest_manifest(vec![], vec![]));
    assert!(!is_cyclical(&metadata, &bytes("ab")));
}

#[test]
fn not_cyclical_for_other_dependency_names() {
    let metadata = Some(latest_manifest(vec!["xyz"], vec!["uvw"]));
    assert!(!is_cyclical(&metadata, &bytes("ab")));
}

#[test]
fn not_cyclical_without_latest_tag() {
    let metadata = Some(PackageMetadata {
        latest: None,
        versions: vec![VersionEntry {
            version: bytes("1.0.0"),
            dependencies: vec![bytes("ab")],
            dev_dependencies: vec![],
        }],
    });
    assert!(!is_cyclical(&metadata, &bytes("ab")));
}

#[test]
fn not_cyclical_when_latest_entry_missing() {
    let metadata = Some(PackageMetadata {
        latest: Some(bytes("2.0.0")),
        versions: vec![VersionEntry {
            version: bytes("1.0.0"),
            dependencies: vec![bytes("ab")],
            dev_dependencies: vec![],
        }],
    });
    assert!(!is_cyclical(&metadata, &bytes("ab")));
}

#[test]
fn not_cyclical_when_lookup_failed() {
    assert!(!is_cyclical(&None, &bytes("ab")));
}
