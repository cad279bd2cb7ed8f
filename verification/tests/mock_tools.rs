use alloyfang::mock_tools::noop_tool;
use std::time::Duration;

#[test]
fn test_noop_tool() {
    let result = noop_tool();
    assert!(result.success);
    assert_eq!(result.duration, Duration::ZERO);
}

#[test]
fn test_cpu_bound() {
    let result = alloyfang::mock_tools::cpu_bound_tool(100_000);
    assert!(result.success);
    assert!(result.duration > Duration::ZERO);
}

#[test]
fn test_large_output() {
    let result = alloyfang::mock_tools::large_output_tool(1000);
    assert_eq!(result.output.len(), 1000);
}

#[test]
fn test_tool_chain() {
    let results = alloyfang::mock_tools::tool_chain(5, 1024);
    assert_eq!(results.len(), 5);
}

#[test]
fn noop_tool_reports_ok() {
    assert_eq!(noop_tool().output, "ok");
}

#[test]
fn large_output_is_all_x() {
    let result = alloyfang::mock_tools::large_output_tool(3);
    assert_eq!(result.output, "xxx");
    assert!(result.success);
    assert_eq!(result.duration, Duration::ZERO);
    assert_eq!(alloyfang::mock_tools::large_output_tool(0).output, "");
}

#[test]
fn tool_chain_step_outputs() {
    let results = alloyfang::mock_tools::tool_chain(3, 7);
    assert_eq!(results[0].output, "step_0_output_7_bytes");
    assert_eq!(results[2].output, "step_2_output_7_bytes");
    assert!(results.iter().all(|r| r.success && r.duration == Duration::ZERO));
    assert!(alloyfang::mock_tools::tool_chain(0, 10).is_empty());
}

#[test]
fn cpu_bound_sum_is_exact() {
    // 0 + 1 + ... + 99 = 4950
    assert_eq!(alloyfang::mock_tools::cpu_bound_tool(100).output, "computed: 4950");
    assert_eq!(alloyfang::mock_tools::cpu_bound_tool(0).output, "computed: 0");
    assert_eq!(alloyfang::mock_tools::cpu_bound_tool(100_000).output, "computed: 4999950000");
}
