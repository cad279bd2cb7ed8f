use alloyfang::mock_llm::{MockLlmDriver, MockResponse, MockToolCall};
use serde_json::Value;
use std::time::Duration;

fn command_input() -> Value {
    let mut map = serde_json::Map::new();
    map.insert("command".to_string(), Value::String("ls".to_string()));
    Value::Object(map)
}

#[test]
fn test_text_only() {
    let mut driver = MockLlmDriver::text_only("hello", Duration::from_millis(1));
    let resp = driver.next_response();
    assert_eq!(resp.text, "hello");
    assert!(resp.tool_calls.is_empty());
}

#[test]
fn test_tool_then_text() {
    let mut driver = MockLlmDriver::single_tool_then_text("shell", command_input(), "Done!");
    let r1 = driver.next_response();
    assert_eq!(r1.tool_calls.len(), 1);
    assert_eq!(r1.tool_calls[0].name, "shell");

    let r2 = driver.next_response();
    assert_eq!(r2.text, "Done!");
}

#[test]
fn test_cycling() {
    let mut driver = MockLlmDriver::text_only("cycle", Duration::from_millis(1));
    let _ = driver.next_response();
    let _ = driver.next_response();
    assert_eq!(driver.calls_made(), 2);
}

#[test]
fn responses_cycle_in_order() {
    let responses = vec![
        MockResponse { text: "one".into(), tool_calls: vec![], input_tokens: 1, output_tokens: 2 },
        MockResponse { text: "two".into(), tool_calls: vec![], input_tokens: 3, output_tokens: 4 },
    ];
    let mut driver = MockLlmDriver::with_responses(responses, Duration::from_millis(7));
    assert_eq!(driver.latency(), Duration::from_millis(7));
    let texts: Vec<String> = (0..5).map(|_| driver.next_response().text).collect();
    assert_eq!(texts, vec!["one", "two", "one", "two", "one"]);
    assert_eq!(driver.calls_made(), 5);
}

#[test]
fn empty_driver_falls_back() {
    let mut driver = MockLlmDriver::with_responses(vec![], Duration::ZERO);
    let resp = driver.next_response();
    assert_eq!(resp.text, "Mock response (no responses configured)");
    assert_eq!((resp.input_tokens, resp.output_tokens), (10, 10));
    assert!(resp.tool_calls.is_empty());
}

#[test]
fn parallel_tools_then_text() {
    let tools = vec![("a".to_string(), command_input()), ("b".to_string(), Value::Null)];
    let mut driver = MockLlmDriver::parallel_tools(tools, "fin");
    assert_eq!(driver.latency(), Duration::from_millis(50));
    let r1 = driver.next_response();
    let names: Vec<&str> = r1.tool_calls.iter().map(|c: &MockToolCall| c.name.as_str()).collect();
    assert_eq!(names, vec!["a", "b"]);
    assert_eq!(r1.tool_calls[0].input, command_input());
    assert_eq!((r1.input_tokens, r1.output_tokens), (200, 80));
    let r2 = driver.next_response();
    assert_eq!(r2.text, "fin");
    assert_eq!((r2.input_tokens, r2.output_tokens), (300, 50));
    let r3 = driver.next_response();
    assert_eq!(r3.tool_calls.len(), 2);
}
