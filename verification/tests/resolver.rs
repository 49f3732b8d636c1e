//! Resolver behavior: topological order, duplicates, cycles, missing
//! packages, and the plan builder.

use texman::catalog::parse_catalog;
use texman::errors::TexError;
use texman::resolver::{build_install_plan, resolve};

#[test]
fn resolves_single_dependency_in_order() {
    let idx = parse_catalog("name a\nrevision 1\ndepends \n\nname b\nrevision 2\ndepends a\n");
    let plan = resolve("b", &idx).expect("resolves");
    assert_eq!(plan, vec!["a", "b"]);
}

#[test]
fn two_node_cycle_is_detected() {
    let idx = parse_catalog("name a\ndepends b\n\nname b\ndepends a\n");
    match resolve("a", &idx) {
        Err(TexError::DependencyCycle(n)) => assert_eq!(n, "a"),
        _ => panic!("expected a dependency cycle"),
    }
}

#[test]
fn self_loop_is_a_cycle() {
    let idx = parse_catalog("name a\ndepends a\n");
    assert!(matches!(
        resolve("a", &idx),
        Err(TexError::DependencyCycle(_))
    ));
}

#[test]
fn missing_target_is_reported() {
    let idx = parse_catalog("name a\n");
    match resolve("zzz", &idx) {
        Err(TexError::PackageNotFound(n)) => assert_eq!(n, "zzz"),
        _ => panic!("expected a missing package"),
    }
}

#[test]
fn missing_dependency_is_reported() {
    let idx = parse_catalog("name a\ndepends ghost\n");
    match resolve("a", &idx) {
        Err(TexError::PackageNotFound(n)) => assert_eq!(n, "ghost"),
        _ => panic!("expected a missing package"),
    }
}

#[test]
fn diamond_graph_topological_order() {
    let idx = parse_catalog(
        "name base\n\nname left\ndepends base\n\nname right\ndepends base\n\nname top\ndepends left, right\n",
    );
    let plan = resolve("top", &idx).expect("resolves");
    assert_eq!(plan.last().map(String::as_str), Some("top"));
    let pos = |n: &str| plan.iter().position(|x| x == n).expect("present");
    assert!(pos("base") < pos("left"));
    assert!(pos("base") < pos("right"));
    assert!(pos("left") < pos("top"));
    assert!(pos("right") < pos("top"));
    // no duplicates
    let mut sorted = plan.clone();
    sorted.sort();
    sorted.dedup();
    assert_eq!(sorted.len(), plan.len());
}

#[test]
fn shared_dependency_appears_once() {
    let idx = parse_catalog("name c\n\nname a\ndepends c\n\nname b\ndepends c, a\n");
    let plan = resolve("b", &idx).expect("resolves");
    assert_eq!(plan, vec!["c", "a", "b"]);
}

#[test]
fn install_plan_carries_records() {
    let idx = parse_catalog("name a\nrevision 5\n\nname b\nrevision 6\ndepends a\n");
    let plan = build_install_plan("b", &idx).expect("plans");
    assert_eq!(plan.len(), 2);
    assert_eq!(plan[0].name, "a");
    assert_eq!(plan[0].revision, "5");
    assert_eq!(plan[1].name, "b");
    assert_eq!(plan[1].revision, "6");
}

#[test]
fn cycle_produces_no_plan() {
    let idx = parse_catalog("name a\ndepends b\n\nname b\ndepends a\n");
    assert!(build_install_plan("a", &idx).is_err());
}
