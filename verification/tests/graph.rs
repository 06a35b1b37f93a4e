use tempest::graph::{DependencyGraph, GraphError};
use tempest::package::{Dependency, LockedPackage, Lockfile, PackageRef, Version, VersionReq};

fn package(id: &str, version: (u64, u64, u64), transitive: bool, deps: Vec<Dependency>) -> LockedPackage {
    LockedPackage {
        ref_: PackageRef::new(id.to_string(), Version::new(version.0, version.1, version.2)),
        source: "thunderstore".to_string(),
        transitive,
        size: None,
        deps,
    }
}

fn dep(id: &str) -> Dependency {
    Dependency::new(id.to_string(), VersionReq::star(), "thunderstore".to_string())
}

fn base_packages() -> Vec<LockedPackage> {
    vec![
        package("author-alpha", (1, 0, 0), false, vec![dep("author-bravo"), dep("author-charlie")]),
        package("author-bravo", (1, 2, 3), true, vec![dep("author-delta")]),
        package("author-charlie", (2, 0, 0), true, vec![]),
        package("author-delta", (0, 9, 0), true, vec![]),
    ]
}

#[test]
fn renders_a_tree() {
    let lockfile = Lockfile::new(base_packages());

    let rendered = DependencyGraph::new(&lockfile).render();

    assert_eq!(
        rendered,
        "author-alpha@1.0.0\n├── author-bravo@1.2.3\n│   └── author-delta@0.9.0\n└── author-charlie@2.0.0\n"
    );
}

#[test]
fn renders_a_target_subtree() {
    let lockfile = Lockfile::new(base_packages());

    let rendered = DependencyGraph::new(&lockfile)
        .render_targeted(&vec!["author-bravo".to_string()], false)
        .unwrap();

    assert_eq!(rendered, "author-bravo@1.2.3\n└── author-delta@0.9.0\n");
}

#[test]
fn renders_a_reverse_tree() {
    let mut packages = base_packages();
    packages.push(package("author-echo", (1, 0, 0), true, vec![dep("author-bravo")]));
    packages.push(package("author-zeta", (2, 0, 0), true, vec![dep("author-alpha")]));
    let lockfile = Lockfile::new(packages);

    let rendered = DependencyGraph::new(&lockfile)
        .render_targeted(&vec!["author-bravo".to_string()], true)
        .unwrap();

    assert_eq!(
        rendered,
        "author-bravo@1.2.3\n├── author-alpha@1.0.0\n│   └── author-zeta@2.0.0\n└── author-echo@1.0.0\n"
    );
}

#[test]
fn falls_back_to_all_packages_when_everything_is_transitive() {
    let lockfile = Lockfile::new(vec![package("author-alpha", (1, 0, 0), true, vec![])]);

    assert_eq!(DependencyGraph::new(&lockfile).render(), "author-alpha@1.0.0\n");
}

#[test]
fn renders_missing_dependencies_and_cycles() {
    let lockfile = Lockfile::new(vec![
        package("a-one", (1, 0, 0), false, vec![dep("a-two"), dep("z-gone")]),
        package("a-two", (0, 1, 0), true, vec![dep("a-one")]),
    ]);

    assert_eq!(
        DependencyGraph::new(&lockfile).render(),
        "a-one@1.0.0\n├── a-two@0.1.0\n│   └── a-one@1.0.0\n└── z-gone * (missing)\n"
    );
}

#[test]
fn separates_several_roots_with_blank_lines() {
    let lockfile = Lockfile::new(vec![
        package("b-root", (1, 0, 0), false, vec![]),
        package("a-root", (10, 0, 0), false, vec![]),
        package("a-root", (9, 0, 0), false, vec![]),
    ]);

    assert_eq!(
        DependencyGraph::new(&lockfile).render(),
        "a-root@9.0.0\n\na-root@10.0.0\n\nb-root@1.0.0\n"
    );
}

#[test]
fn resolves_targets_by_id_segment_ignoring_case() {
    let lockfile = Lockfile::new(base_packages());
    let graph = DependencyGraph::new(&lockfile);

    let rendered = graph.render_targeted(&vec!["CHARLIE".to_string()], false).unwrap();
    assert_eq!(rendered, "author-charlie@2.0.0\n");

    match graph.render_targeted(&vec!["author".to_string()], false) {
        Err(GraphError::Ambiguous(query, count)) => {
            assert_eq!(query, "author");
            assert_eq!(count, 4);
        }
        other => panic!("unexpected result {other:?}"),
    }

    match graph.render_targeted(&vec!["nothing".to_string()], false) {
        Err(GraphError::NoMatch(query)) => assert_eq!(query, "nothing"),
        other => panic!("unexpected result {other:?}"),
    }
}

#[test]
fn repeated_targets_are_rendered_once() {
    let lockfile = Lockfile::new(base_packages());
    let graph = DependencyGraph::new(&lockfile);

    let rendered = graph
        .render_targeted(&vec!["author-delta".to_string(), "delta".to_string()], false)
        .unwrap();
    assert_eq!(rendered, "author-delta@0.9.0\n");
}

#[test]
fn reverse_tree_of_an_empty_lockfile_is_an_error() {
    let lockfile = Lockfile::new(vec![]);
    let graph = DependencyGraph::new(&lockfile);

    assert!(matches!(
        graph.render_targeted(&vec![], true),
        Err(GraphError::ReverseWithoutTarget)
    ));
    assert_eq!(graph.render_targeted(&vec![], false).unwrap(), "");
}

#[test]
fn a_lockfile_with_packages_always_has_roots_in_reference_order() {
    let lockfile = Lockfile::new(vec![
        package("b-two", (1, 0, 0), true, vec![]),
        package("a-one", (1, 0, 0), true, vec![]),
    ]);

    let rendered = DependencyGraph::new(&lockfile).render();

    assert_eq!(rendered, "a-one@1.0.0\n\nb-two@1.0.0\n");
}

#[test]
fn rendering_ignores_the_order_of_packages() {
    let mut packages = base_packages();
    let first = DependencyGraph::new(&Lockfile::new(base_packages())).render();
    packages.reverse();
    packages.swap(0, 2);
    let lockfile = Lockfile::new(packages);
    let graph = DependencyGraph::new(&lockfile);
    assert_eq!(graph.render(), first);
    let targeted = graph.render_targeted(&vec!["bravo".to_string()], false).unwrap();
    assert_eq!(targeted, "author-bravo@1.2.3\n└── author-delta@0.9.0\n");
}

#[test]
fn rendering_ignores_the_order_and_repetition_of_targets() {
    let lockfile = Lockfile::new(base_packages());
    let graph = DependencyGraph::new(&lockfile);
    let one = graph
        .render_targeted(&vec!["author-delta".to_string(), "charlie".to_string()], false)
        .unwrap();
    let other = graph
        .render_targeted(
            &vec!["Charlie".to_string(), "delta".to_string(), "author-charlie".to_string()],
            false,
        )
        .unwrap();
    assert_eq!(one, other);
    assert_eq!(one, "author-charlie@2.0.0\n\nauthor-delta@0.9.0\n");
}
