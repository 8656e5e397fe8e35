//! Resolution of dependency closures over an in-memory registry.

use wasmer_core::graph::{DependencyGraph, Edge, Node};
use wasmer_core::registry::{
    Dependency, DistributionInfo, InMemorySource, PackageId, PackageInfo, PackageSpecifier,
    PackageSummary, Command, FileSystemMapping,
};
use wasmer_core::resolver::{
    print_cycle, resolve, resolve_package, ResolveError, ResolvedFileSystemMapping,
};
use wasmer_core::version::{parse_range, parse_version, Version};

fn make_pkg(name: &str, version: &str) -> PackageInfo {
    PackageInfo {
        name: name.to_string(),
        version: parse_version(version).unwrap(),
        dependencies: Vec::new(),
        commands: Vec::new(),
        entrypoint: None,
        filesystem: Vec::new(),
    }
}

fn make_dist(name: &str, version: &str) -> DistributionInfo {
    DistributionInfo {
        webc: format!("http://localhost/{name}@{version}"),
        webc_sha256: vec![0; 32],
    }
}

fn with_dependency(pkg: &mut PackageInfo, name: &str, version_constraint: &str) {
    with_aliased_dependency(pkg, name, name, version_constraint)
}

fn with_aliased_dependency(pkg: &mut PackageInfo, alias: &str, name: &str, version_constraint: &str) {
    pkg.dependencies.push(Dependency {
        alias: alias.to_string(),
        pkg: PackageSpecifier::Registry {
            full_name: name.to_string(),
            version: parse_range(version_constraint).unwrap(),
        },
    });
}

fn with_command(pkg: &mut PackageInfo, name: &str) {
    pkg.commands.push(Command { name: name.to_string() });
}

fn with_fs_mapping(pkg: &mut PackageInfo, volume_name: &str, original_path: &str, mount_path: &str) {
    pkg.filesystem.push(FileSystemMapping {
        volume_name: volume_name.to_string(),
        original_path: original_path.to_string(),
        mount_path: mount_path.to_string(),
        dependency_name: None,
    });
}

fn register(registry: &mut InMemorySource, pkg: PackageInfo) {
    let dist = make_dist(&pkg.name, &render_version(&pkg.version));
    registry.add(PackageSummary { pkg, dist });
}

fn render_version(v: &Version) -> String {
    wasmer_core::version::version_to_string(v)
}

fn id_of(name: &str, version: &str) -> PackageId {
    PackageId {
        package_name: name.to_string(),
        version: parse_version(version).unwrap(),
    }
}

/// The id of the node an alias of `from` points at, if any.
fn edge_target(graph: &DependencyGraph, from: &PackageId, alias: &str) -> Option<PackageId> {
    for i in 0..graph.nodes.len() {
        if graph.nodes[i].id == *from {
            for (a, t) in graph.edges_from(i) {
                if a == alias {
                    return Some(graph.nodes[t].id.clone());
                }
            }
        }
    }
    None
}

fn node_ids(graph: &DependencyGraph) -> Vec<PackageId> {
    graph.nodes.iter().map(|n| n.id.clone()).collect()
}

#[test]
fn no_deps_and_no_commands() {
    let mut registry = InMemorySource::new();
    register(&mut registry, make_pkg("root", "1.0.0"));
    let root = make_pkg("root", "1.0.0");

    let resolution = resolve(&root.id(), &root, &registry).unwrap();

    assert_eq!(node_ids(&resolution.graph), vec![id_of("root", "1.0.0")]);
    assert_eq!(resolution.package.root_package, id_of("root", "1.0.0"));
    assert!(resolution.package.commands.is_empty());
    assert_eq!(resolution.package.entrypoint, None);
    assert!(resolution.package.filesystem.is_empty());
}

#[test]
fn no_deps_one_command() {
    let mut registry = InMemorySource::new();
    let mut root = make_pkg("root", "1.0.0");
    with_command(&mut root, "asdf");
    register(&mut registry, root.clone());

    let resolution = resolve(&root.id(), &root, &registry).unwrap();

    assert_eq!(resolution.package.commands.len(), 1);
    let loc = resolution.package.command("asdf").unwrap();
    assert_eq!(loc.name, "asdf");
    assert_eq!(loc.package, id_of("root", "1.0.0"));
}

#[test]
fn single_dependency() {
    let mut registry = InMemorySource::new();
    let mut root = make_pkg("root", "1.0.0");
    with_dependency(&mut root, "dep", "=1.0.0");
    register(&mut registry, root.clone());
    register(&mut registry, make_pkg("dep", "1.0.0"));

    let resolution = resolve(&root.id(), &root, &registry).unwrap();

    assert_eq!(
        node_ids(&resolution.graph),
        vec![id_of("root", "1.0.0"), id_of("dep", "1.0.0")]
    );
    assert_eq!(
        edge_target(&resolution.graph, &id_of("root", "1.0.0"), "dep"),
        Some(id_of("dep", "1.0.0"))
    );
    assert!(resolution.package.commands.is_empty());
    assert_eq!(resolution.package.entrypoint, None);
    assert!(resolution.package.filesystem.is_empty());
}

#[test]
fn linear_dependency_chain() {
    let mut registry = InMemorySource::new();
    let mut first = make_pkg("first", "1.0.0");
    with_dependency(&mut first, "second", "=1.0.0");
    let mut second = make_pkg("second", "1.0.0");
    with_dependency(&mut second, "third", "=1.0.0");
    register(&mut registry, first.clone());
    register(&mut registry, second);
    register(&mut registry, make_pkg("third", "1.0.0"));

    let resolution = resolve(&first.id(), &first, &registry).unwrap();

    assert_eq!(
        node_ids(&resolution.graph),
        vec![
            id_of("first", "1.0.0"),
            id_of("second", "1.0.0"),
            id_of("third", "1.0.0")
        ]
    );
    assert_eq!(
        edge_target(&resolution.graph, &id_of("first", "1.0.0"), "second"),
        Some(id_of("second", "1.0.0"))
    );
    assert_eq!(
        edge_target(&resolution.graph, &id_of("second", "1.0.0"), "third"),
        Some(id_of("third", "1.0.0"))
    );
    assert_eq!(resolution.package.root_package, id_of("first", "1.0.0"));
    assert!(resolution.package.commands.is_empty());
    assert_eq!(resolution.package.entrypoint, None);
    assert!(resolution.package.filesystem.is_empty());
}

#[test]
fn pick_the_latest_dependency_when_multiple_are_possible() {
    let mut registry = InMemorySource::new();
    let mut root = make_pkg("root", "1.0.0");
    with_dependency(&mut root, "dep", "^1.0.0");
    register(&mut registry, root.clone());
    register(&mut registry, make_pkg("dep", "1.0.0"));
    register(&mut registry, make_pkg("dep", "1.0.1"));
    register(&mut registry, make_pkg("dep", "1.0.2"));

    let resolution = resolve(&root.id(), &root, &registry).unwrap();

    assert_eq!(
        edge_target(&resolution.graph, &id_of("root", "1.0.0"), "dep"),
        Some(id_of("dep", "1.0.2"))
    );
    assert_eq!(
        node_ids(&resolution.graph),
        vec![id_of("root", "1.0.0"), id_of("dep", "1.0.2")]
    );
    assert_eq!(resolution.package.root_package, id_of("root", "1.0.0"));
    assert!(resolution.package.commands.is_empty());
    assert_eq!(resolution.package.entrypoint, None);
    assert!(resolution.package.filesystem.is_empty());
}

#[test]
fn version_merging_isnt_implemented_yet() {
    let mut registry = InMemorySource::new();
    let mut root = make_pkg("root", "1.0.0");
    with_dependency(&mut root, "first", "=1.0.0");
    with_dependency(&mut root, "second", "=1.0.0");
    let mut first = make_pkg("first", "1.0.0");
    with_dependency(&mut first, "common", "^1.0.0");
    let mut second = make_pkg("second", "1.0.0");
    with_dependency(&mut second, "common", ">1.1,<1.3");
    register(&mut registry, root.clone());
    register(&mut registry, first);
    register(&mut registry, second);
    register(&mut registry, make_pkg("common", "1.0.0"));
    register(&mut registry, make_pkg("common", "1.1.0"));
    register(&mut registry, make_pkg("common", "1.2.0"));
    register(&mut registry, make_pkg("common", "1.5.0"));

    let result = resolve(&root.id(), &root, &registry);

    match result {
        Err(ResolveError::DuplicateVersions {
            package_name,
            versions,
        }) => {
            assert_eq!(package_name, "common");
            assert_eq!(
                versions,
                [
                    parse_version("1.2.0").unwrap(),
                    parse_version("1.5.0").unwrap(),
                ]
            );
        }
        _ => unreachable!("Expected a duplicate versions error, found {:?}", result),
    }
}

#[test]
fn commands_from_dependencies_end_up_in_the_package() {
    let mut registry = InMemorySource::new();
    let mut root = make_pkg("root", "1.0.0");
    with_dependency(&mut root, "first", "=1.0.0");
    with_dependency(&mut root, "second", "=1.0.0");
    let mut first = make_pkg("first", "1.0.0");
    with_command(&mut first, "first-command");
    let mut second = make_pkg("second", "1.0.0");
    with_command(&mut second, "second-command");
    register(&mut registry, root.clone());
    register(&mut registry, first);
    register(&mut registry, second);

    let resolution = resolve(&root.id(), &root, &registry).unwrap();

    assert_eq!(resolution.package.commands.len(), 2);
    let first_loc = resolution.package.command("first-command").unwrap();
    assert_eq!(first_loc.package, id_of("first", "1.0.0"));
    let second_loc = resolution.package.command("second-command").unwrap();
    assert_eq!(second_loc.package, id_of("second", "1.0.0"));
}

#[test]
fn cyclic_dependencies() {
    let mut registry = InMemorySource::new();
    let mut root = make_pkg("root", "1.0.0");
    with_dependency(&mut root, "dep", "=1.0.0");
    let mut dep = make_pkg("dep", "1.0.0");
    with_dependency(&mut dep, "root", "=1.0.0");
    register(&mut registry, root.clone());
    register(&mut registry, dep);

    let err = resolve(&root.id(), &root, &registry).unwrap_err();

    let cycle = err.as_cycle().unwrap().clone();
    assert_eq!(
        cycle,
        [
            id_of("root", "1.0.0"),
            id_of("dep", "1.0.0"),
            id_of("root", "1.0.0"),
        ]
    );
}

#[test]
fn entrypoint_is_inherited() {
    let mut registry = InMemorySource::new();
    let mut root = make_pkg("root", "1.0.0");
    with_dependency(&mut root, "dep", "=1.0.0");
    let mut dep = make_pkg("dep", "1.0.0");
    with_command(&mut dep, "entry");
    dep.entrypoint = Some("entry".to_string());
    register(&mut registry, root.clone());
    register(&mut registry, dep);

    let resolution = resolve(&root.id(), &root, &registry).unwrap();

    assert_eq!(resolution.package.entrypoint, Some("entry".to_string()));
    let loc = resolution.package.command("entry").unwrap();
    assert_eq!(loc.package, id_of("dep", "1.0.0"));
}

#[test]
fn cyclic_error_message() {
    let cycle = vec![
        PackageId {
            package_name: "root".to_string(),
            version: parse_version("1.0.0").unwrap(),
        },
        PackageId {
            package_name: "dep".to_string(),
            version: parse_version("1.0.0").unwrap(),
        },
        PackageId {
            package_name: "root".to_string(),
            version: parse_version("1.0.0").unwrap(),
        },
    ];

    let message = print_cycle(&cycle);

    assert_eq!(message, "root@1.0.0 → dep@1.0.0 → root@1.0.0");
}

/// A node for a hand-built graph, as the registry would summarise it.
fn graph_node(pkg: PackageInfo) -> Node {
    let dist = make_dist(&pkg.name, &render_version(&pkg.version));
    Node {
        id: pkg.id(),
        pkg,
        dist: Some(dist),
    }
}

#[test]
fn filesystem_with_one_package_and_no_fs_tables() {
    let graph = DependencyGraph::new(0, vec![graph_node(make_pkg("root", "1.0.0"))], vec![]);

    let pkg = resolve_package(&graph).unwrap();

    assert!(pkg.filesystem.is_empty());
}

#[test]
fn filesystem_with_one_package_and_one_fs_tables() {
    let mut root = make_pkg("root", "1.0.0");
    with_fs_mapping(&mut root, "atom", "/publisher/lib", "/lib");
    let graph = DependencyGraph::new(0, vec![graph_node(root)], vec![]);

    let pkg = resolve_package(&graph).unwrap();

    assert_eq!(
        pkg.filesystem,
        vec![ResolvedFileSystemMapping {
            mount_path: "/lib".to_string(),
            original_path: "/publisher/lib".to_string(),
            volume_name: "atom".to_string(),
            package: id_of("root", "1.0.0"),
        }]
    );
}

#[test]
fn merge_fs_mappings_from_multiple_packages() {
    let mut root = make_pkg("root", "1.0.0");
    with_dependency(&mut root, "first", "=1.0.0");
    with_dependency(&mut root, "second", "=1.0.0");
    with_fs_mapping(&mut root, "atom", "/root", "/root");
    let mut first = make_pkg("first", "1.0.0");
    with_fs_mapping(&mut first, "atom", "/usr/local/lib/first", "/usr/local/lib/first");
    let mut second = make_pkg("second", "1.0.0");
    with_fs_mapping(&mut second, "atom", "/usr/local/lib/second", "/usr/local/lib/second");
    // Nodes ordered by package id, as an id-keyed index stores them.
    let graph = DependencyGraph::new(
        1,
        vec![graph_node(first), graph_node(root), graph_node(second)],
        vec![
            Edge { from: 1, to: 0, alias: "first".to_string() },
            Edge { from: 1, to: 2, alias: "second".to_string() },
        ],
    );

    let pkg = resolve_package(&graph).unwrap();

    assert_eq!(
        pkg.filesystem,
        vec![
            ResolvedFileSystemMapping {
                mount_path: "/usr/local/lib/first".to_string(),
                volume_name: "atom".to_string(),
                original_path: "/usr/local/lib/first".to_string(),
                package: id_of("first", "1.0.0"),
            },
            ResolvedFileSystemMapping {
                mount_path: "/usr/local/lib/second".to_string(),
                original_path: "/usr/local/lib/second".to_string(),
                volume_name: "atom".to_string(),
                package: id_of("second", "1.0.0"),
            },
            ResolvedFileSystemMapping {
                mount_path: "/root".to_string(),
                original_path: "/root".to_string(),
                volume_name: "atom".to_string(),
                package: id_of("root", "1.0.0"),
            }
        ]
    );
}

#[test]
fn use_fs_mapping_from_dependency() {
    let mut root = make_pkg("root", "1.0.0");
    with_dependency(&mut root, "dep", "=1.0.0");
    root.filesystem.push(FileSystemMapping {
        volume_name: "dep-volume".to_string(),
        mount_path: "/root".to_string(),
        original_path: "/root".to_string(),
        dependency_name: Some("dep".to_string()),
    });
    let graph = DependencyGraph::new(
        1,
        vec![graph_node(make_pkg("dep", "1.0.0")), graph_node(root)],
        vec![Edge { from: 1, to: 0, alias: "dep".to_string() }],
    );

    let pkg = resolve_package(&graph).unwrap();

    assert_eq!(
        pkg.filesystem,
        vec![ResolvedFileSystemMapping {
            mount_path: "/root".to_string(),
            original_path: "/root".to_string(),
            volume_name: "dep-volume".to_string(),
            package: id_of("dep", "1.0.0"),
        }]
    );
}

#[test]
fn unknown_mapping_alias_is_rejected() {
    let mut root = make_pkg("root", "1.0.0");
    root.filesystem.push(FileSystemMapping {
        volume_name: "atom".to_string(),
        mount_path: "/root".to_string(),
        original_path: "/root".to_string(),
        dependency_name: Some("missing".to_string()),
    });
    let graph = DependencyGraph::new(0, vec![graph_node(root)], vec![]);

    let err = resolve_package(&graph).unwrap_err();
    assert!(matches!(err, ResolveError::UnknownDependencyAlias { .. }));
}

#[test]
fn duplicate_aliases_are_rejected() {
    let mut registry = InMemorySource::new();
    let mut root = make_pkg("root", "1.0.0");
    with_aliased_dependency(&mut root, "dep", "dep", "=1.0.0");
    with_aliased_dependency(&mut root, "dep", "other", "=1.0.0");
    register(&mut registry, root.clone());
    register(&mut registry, make_pkg("dep", "1.0.0"));
    register(&mut registry, make_pkg("other", "1.0.0"));

    let err = resolve(&root.id(), &root, &registry).unwrap_err();
    assert!(matches!(err, ResolveError::DuplicateAliases { .. }));
}

#[test]
fn missing_package_is_a_registry_error() {
    let registry = InMemorySource::new();
    let mut root = make_pkg("root", "1.0.0");
    with_dependency(&mut root, "dep", "=1.0.0");

    let err = resolve(&root.id(), &root, &registry).unwrap_err();
    assert!(matches!(err, ResolveError::Registry { .. }));
}

#[test]
fn resolving_twice_gives_identical_output() {
    let mut registry = InMemorySource::new();
    let mut root = make_pkg("root", "1.0.0");
    with_dependency(&mut root, "dep", "^1.0.0");
    let mut dep = make_pkg("dep", "1.0.2");
    with_command(&mut dep, "run");
    register(&mut registry, root.clone());
    register(&mut registry, dep);

    let a = resolve(&root.id(), &root, &registry).unwrap();
    let b = resolve(&root.id(), &root, &registry).unwrap();

    assert_eq!(a.package, b.package);
    assert_eq!(node_ids(&a.graph), node_ids(&b.graph));
}

#[test]
fn filesystem_layering_through_resolve() {
    let mut registry = InMemorySource::new();
    let mut root = make_pkg("root", "1.0.0");
    with_dependency(&mut root, "first", "=1.0.0");
    with_dependency(&mut root, "second", "=1.0.0");
    with_fs_mapping(&mut root, "atom", "/root", "/root");
    let mut first = make_pkg("first", "1.0.0");
    with_fs_mapping(&mut first, "atom", "/usr/local/lib/first", "/usr/local/lib/first");
    let mut second = make_pkg("second", "1.0.0");
    with_fs_mapping(&mut second, "atom", "/usr/local/lib/second", "/usr/local/lib/second");
    register(&mut registry, root.clone());
    register(&mut registry, first);
    register(&mut registry, second);

    let resolution = resolve(&root.id(), &root, &registry).unwrap();

    // The root's own overlay mounts last, so it wins over its
    // dependencies' overlays.
    let mounts: Vec<&str> = resolution
        .package
        .filesystem
        .iter()
        .map(|m| m.mount_path.as_str())
        .collect();
    assert_eq!(mounts.last(), Some(&"/root"));
    assert_eq!(resolution.package.filesystem.len(), 3);
    for mapping in &resolution.package.filesystem {
        assert!(node_ids(&resolution.graph).contains(&mapping.package));
    }
}
