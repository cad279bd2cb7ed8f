use alloyfang::parallel_executor::{
    topological_levels, ParallelWorkflowExecutor, WorkItem, WorkflowError,
};

#[test]
fn test_topological_levels_linear() {
    let items = vec![
        WorkItem {
            id: "a".into(),
            dependencies: vec![],
        },
        WorkItem {
            id: "b".into(),
            dependencies: vec!["a".into()],
        },
        WorkItem {
            id: "c".into(),
            dependencies: vec!["b".into()],
        },
    ];

    let levels = topological_levels(&items).unwrap();
    assert_eq!(levels.len(), 3);
    assert_eq!(levels[0], vec!["a"]);
    assert_eq!(levels[1], vec!["b"]);
    assert_eq!(levels[2], vec!["c"]);
}

#[test]
fn test_topological_levels_parallel() {
    let items = vec![
        WorkItem {
            id: "a".into(),
            dependencies: vec![],
        },
        WorkItem {
            id: "b".into(),
            dependencies: vec![],
        },
        WorkItem {
            id: "c".into(),
            dependencies: vec!["a".into(), "b".into()],
        },
    ];

    let levels = topological_levels(&items).unwrap();
    assert_eq!(levels.len(), 2);
    assert_eq!(levels[0].len(), 2); // a and b in parallel
    assert_eq!(levels[1], vec!["c"]);
}

#[test]
fn test_cyclic_dependency() {
    let items = vec![
        WorkItem {
            id: "a".into(),
            dependencies: vec!["b".into()],
        },
        WorkItem {
            id: "b".into(),
            dependencies: vec!["a".into()],
        },
    ];

    assert!(topological_levels(&items).is_err());
}

fn item(id: &str, deps: &[&str]) -> WorkItem {
    WorkItem { id: id.to_string(), dependencies: deps.iter().map(|d| d.to_string()).collect() }
}

#[test]
fn empty_workflow_has_no_levels() {
    assert_eq!(topological_levels(&[]).unwrap(), Vec::<Vec<String>>::new());
}

#[test]
fn missing_dependency_is_refused() {
    let items = vec![item("a", &[]), item("b", &["zzz"])];
    assert_eq!(topological_levels(&items), Err(WorkflowError::CyclicDependency));
}

#[test]
fn self_dependency_is_refused() {
    let items = vec![item("a", &["a"])];
    assert_eq!(topological_levels(&items), Err(WorkflowError::CyclicDependency));
}

#[test]
fn level_is_longest_dependency_chain() {
    // d depends on a (level 0) and c (level 2): it runs in level 3.
    let items = vec![
        item("d", &["a", "c"]),
        item("c", &["b"]),
        item("b", &["a"]),
        item("a", &[]),
        item("e", &[]),
    ];
    let levels = topological_levels(&items).unwrap();
    assert_eq!(levels, vec![vec!["a", "e"], vec!["b"], vec!["c"], vec!["d"]]);
}

#[test]
fn repeated_ids_merge_their_dependencies() {
    let items = vec![item("x", &[]), item("y", &[]), item("x", &["y"]), item("y", &[])];
    let levels = topological_levels(&items).unwrap();
    assert_eq!(levels, vec![vec!["y"], vec!["x"]]);
}

#[test]
fn executor_counts_groups() {
    let mut executor = ParallelWorkflowExecutor::new(0);
    assert_eq!(executor.max_concurrency(), 1);
    executor.record_group(0, 5, 5);
    executor.record_group(1, 10, 9);
    executor.record_group(4, 20, 70);
    let stats = executor.stats();
    assert_eq!(stats.total_tasks, 5);
    assert_eq!(stats.sequential_fallbacks, 1);
    assert_eq!(stats.parallel_groups, 1);
    assert_eq!(stats.total_wall_time_us, 30);
    assert_eq!(stats.total_cpu_time_us, 79);
    assert_eq!(ParallelWorkflowExecutor::new(4).max_concurrency(), 4);
    assert_eq!(executor.semaphore().available_permits(), 1);
}

#[test]
fn diamond_schedules_each_item_once() {
    let items = vec![
        item("top", &[]),
        item("left", &["top"]),
        item("right", &["top"]),
        item("bottom", &["left", "right", "top"]),
    ];
    let levels = topological_levels(&items).unwrap();
    let mut all: Vec<String> = levels.iter().flatten().cloned().collect();
    all.sort();
    assert_eq!(all, vec!["bottom", "left", "right", "top"]);
    assert_eq!(levels, vec![vec!["top"], vec!["left", "right"], vec!["bottom"]]);
}

#[test]
fn semaphore_has_one_permit_per_allowed_task() {
    let executor = ParallelWorkflowExecutor::new(6);
    assert_eq!(executor.max_concurrency(), 6);
    assert_eq!(executor.semaphore().available_permits(), 6);
}
