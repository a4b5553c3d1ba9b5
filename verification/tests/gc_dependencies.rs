use sley_repo::gc::{GcErrorCode, MAX_GC_DEPENDENCY_EDGES};
use sley_repo::gc_plan::{check_root_dependencies, GcRoot};

fn id(byte: u8) -> [u8; 32] {
    [byte; 32]
}

fn root(byte: u8, dependencies: Vec<[u8; 32]>) -> GcRoot {
    GcRoot { root: id(byte), dependency_roots: dependencies, objects: Vec::new() }
}

#[test]
fn a_catalog_closed_under_dependencies_passes() {
    let roots = vec![root(1, vec![]), root(2, vec![id(1)]), root(3, vec![id(1), id(2)])];
    assert_eq!(check_root_dependencies(&roots), Ok(()));
}

#[test]
fn a_dependency_outside_the_catalog_is_missing() {
    let roots = vec![root(1, vec![]), root(2, vec![id(1), id(9)])];
    assert_eq!(check_root_dependencies(&roots), Err(GcErrorCode::DependencyMissing));
}

#[test]
fn the_edge_budget_is_counted_before_the_lookup() {
    let mut dependencies = vec![id(1); MAX_GC_DEPENDENCY_EDGES];
    dependencies.push(id(9));
    let roots = vec![root(1, vec![]), root(2, dependencies)];
    assert_eq!(check_root_dependencies(&roots), Err(GcErrorCode::ResourceLimit));
    let roots = vec![root(1, vec![]), root(2, vec![id(1); MAX_GC_DEPENDENCY_EDGES])];
    assert_eq!(check_root_dependencies(&roots), Ok(()));
}
