use kelpy_pm::deps::Dependencies;
use kelpy_pm::resolver::{topological_sort, DepNode, ResolvedDep, Resolver};

/// A registry held in memory: (name, version, dependencies).
struct MemoryRegistry {
    packages: Vec<(String, String, Vec<(String, String)>)>,
}

impl MemoryRegistry {
    fn new() -> Self {
        MemoryRegistry { packages: Vec::new() }
    }

    fn publish(&mut self, name: &str, version: &str, deps: &[(&str, &str)]) {
        self.packages.push((
            name.to_string(),
            version.to_string(),
            deps.iter().map(|(n, v)| (n.to_string(), v.to_string())).collect(),
        ));
    }

    fn lookup(&self, name: &str, version: &str) -> Option<Dependencies> {
        self.packages.iter().find(|p| p.0 == name && p.1 == version).map(|p| {
            let mut d = Dependencies::new();
            for (n, v) in &p.2 {
                d.insert(n.clone(), v.clone());
            }
            d
        })
    }
}

fn resolve(direct_deps: &Dependencies, registry: &MemoryRegistry) -> Result<Vec<ResolvedDep>, String> {
    let mut resolver = Resolver::new(direct_deps);
    while let Some((name, version)) = resolver.next_lookup() {
        resolver.record(registry.lookup(&name, &version));
    }
    resolver.finish()
}

fn setup_registry_with_packages() -> MemoryRegistry {
    let mut registry = MemoryRegistry::new();
    // "base" v1.0.0 (no deps)
    registry.publish("base", "1.0.0", &[]);
    // "mid" v1.0.0 (depends on base)
    registry.publish("mid", "1.0.0", &[("base", "1.0.0")]);
    registry
}

#[test]
fn test_resolve_single_dep() {
    let registry = setup_registry_with_packages();

    let mut deps = Dependencies::new();
    deps.insert("base".to_string(), "1.0.0".to_string());

    let resolved = resolve(&deps, &registry).unwrap();
    assert_eq!(resolved.len(), 1);
    assert_eq!(resolved[0].name, "base");
}

#[test]
fn test_resolve_transitive_deps() {
    let registry = setup_registry_with_packages();

    let mut deps = Dependencies::new();
    deps.insert("mid".to_string(), "1.0.0".to_string());

    let resolved = resolve(&deps, &registry).unwrap();
    assert_eq!(resolved.len(), 2);
    // base should come before mid
    let names: Vec<&str> = resolved.iter().map(|d| d.name.as_str()).collect();
    let base_idx = names.iter().position(|n| *n == "base").unwrap();
    let mid_idx = names.iter().position(|n| *n == "mid").unwrap();
    assert!(base_idx < mid_idx, "base should be installed before mid");
}

#[test]
fn test_resolve_empty_deps() {
    let registry = MemoryRegistry::new();

    let deps = Dependencies::new();
    let resolved = resolve(&deps, &registry).unwrap();
    assert!(resolved.is_empty());
}

#[test]
fn test_resolve_unknown_package() {
    let registry = MemoryRegistry::new();

    let mut deps = Dependencies::new();
    deps.insert("nonexistent".to_string(), "1.0.0".to_string());

    // Should still succeed — package just won't be in the registry
    let resolved = resolve(&deps, &registry).unwrap();
    assert_eq!(resolved.len(), 1);
    assert_eq!(resolved[0].name, "nonexistent");
}

#[test]
fn resolve_reports_a_cycle() {
    let mut registry = MemoryRegistry::new();
    registry.publish("a", "1", &[("b", "1")]);
    registry.publish("b", "1", &[("a", "1")]);
    let mut deps = Dependencies::new();
    deps.insert("a".to_string(), "1".to_string());
    assert_eq!(resolve(&deps, &registry).unwrap_err(), "Circular dependency detected");
}

#[test]
fn resolve_reports_a_self_dependency() {
    let mut registry = MemoryRegistry::new();
    registry.publish("a", "1", &[("a", "1")]);
    let mut deps = Dependencies::new();
    deps.insert("a".to_string(), "1".to_string());
    assert_eq!(resolve(&deps, &registry).unwrap_err(), "Circular dependency detected");
}

#[test]
fn resolve_orders_a_diamond() {
    let mut registry = MemoryRegistry::new();
    registry.publish("top", "1", &[("left", "1"), ("right", "1")]);
    registry.publish("left", "1", &[("bottom", "2")]);
    registry.publish("right", "1", &[("bottom", "3")]);
    registry.publish("bottom", "2", &[]);
    let mut deps = Dependencies::new();
    deps.insert("top".to_string(), "1".to_string());
    let resolved = resolve(&deps, &registry).unwrap();
    let pairs: Vec<(&str, &str)> =
        resolved.iter().map(|d| (d.name.as_str(), d.version.as_str())).collect();
    // the version first asked for wins; each package comes after its dependencies
    assert_eq!(pairs, vec![("bottom", "2"), ("left", "1"), ("right", "1"), ("top", "1")]);
}

#[test]
fn next_lookup_skips_visited_and_record_queues_new_names() {
    let mut direct = Dependencies::new();
    direct.insert("a".to_string(), "1".to_string());
    direct.insert("b".to_string(), "1".to_string());
    let mut r = Resolver::new(&direct);
    assert_eq!(r.next_lookup(), Some(("a".to_string(), "1".to_string())));
    let mut found = Dependencies::new();
    found.insert("b".to_string(), "9".to_string());
    found.insert("c".to_string(), "2".to_string());
    r.record(Some(found));
    assert_eq!(r.next_lookup(), Some(("b".to_string(), "1".to_string())));
    r.record(None);
    // "b" 9 is skipped because "b" was visited meanwhile
    assert_eq!(r.next_lookup(), Some(("c".to_string(), "2".to_string())));
    r.record(None);
    assert_eq!(r.next_lookup(), None);
    let order = r.finish().unwrap();
    let names: Vec<&str> = order.iter().map(|d| d.name.as_str()).collect();
    assert_eq!(names, vec!["b", "c", "a"]);
}

#[test]
fn topological_sort_rejects_a_dangling_dependency() {
    let nodes = vec![DepNode {
        name: "a".to_string(),
        version: "1".to_string(),
        deps: vec!["missing".to_string()],
    }];
    assert_eq!(topological_sort(&nodes).unwrap_err(), "Circular dependency detected");
}

#[test]
fn topological_sort_puts_dependencies_first() {
    let nodes = vec![
        DepNode { name: "app".to_string(), version: "1".to_string(), deps: vec!["lib".to_string()] },
        DepNode { name: "lib".to_string(), version: "2".to_string(), deps: vec![] },
    ];
    let order = topological_sort(&nodes).unwrap();
    assert_eq!(
        order,
        vec![
            ResolvedDep { name: "lib".to_string(), version: "2".to_string() },
            ResolvedDep { name: "app".to_string(), version: "1".to_string() },
        ]
    );
}
