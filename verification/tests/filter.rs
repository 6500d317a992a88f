use nail_agent::filter::{ToolEntry, ToolFilter};

fn make_tool(name: &str) -> ToolEntry<()> {
    ToolEntry { name: name.to_string(), description: Some(String::new()), rest: () }
}

fn names(v: &[ToolEntry<()>]) -> Vec<&str> {
    v.iter().map(|t| t.name.as_str()).collect()
}

fn strings(v: &[&str]) -> Vec<String> {
    v.iter().map(|s| s.to_string()).collect()
}

#[test]
fn test_allow_all() {
    let filter = ToolFilter::allow_all();
    let tools = vec![make_tool("a"), make_tool("b")];
    let result = filter.apply(tools);
    assert_eq!(result.len(), 2);
}

#[test]
fn test_allowed() {
    let filter = ToolFilter::allowed(&strings(&["a", "c"]));
    let tools = vec![make_tool("a"), make_tool("b"), make_tool("c")];
    let result = filter.apply(tools);
    assert_eq!(names(&result), vec!["a", "c"]);
}

#[test]
fn deny_list_hides_listed_tools() {
    let filter = ToolFilter::denied(&strings(&["a"]));
    let tools = vec![make_tool("a"), make_tool("b"), make_tool("c")];
    let result = filter.apply(tools);
    assert_eq!(names(&result), vec!["b", "c"]);
}

#[test]
fn test_rename() {
    let filter = ToolFilter::allow_all().with_rename("search", "web_search");
    let tools = vec![make_tool("search"), make_tool("read")];
    let result = filter.apply(tools);
    assert_eq!(names(&result), vec!["web_search", "read"]);
}

#[test]
fn test_allowed_with_rename() {
    let filter = ToolFilter::allowed(&strings(&["search", "read"])).with_rename("search", "web_search");
    let tools = vec![make_tool("search"), make_tool("read"), make_tool("delete")];
    let result = filter.apply(tools);
    assert_eq!(names(&result), vec!["web_search", "read"]);
}

#[test]
fn test_is_tool_visible() {
    let filter = ToolFilter::allowed(&strings(&["a", "b"]));
    assert!(filter.is_tool_visible("a"));
    assert!(filter.is_tool_visible("b"));
    assert!(!filter.is_tool_visible("c"));

    let filter = ToolFilter::denied(&strings(&["a"]));
    assert!(!filter.is_tool_visible("a"));
    assert!(filter.is_tool_visible("b"));
}

#[test]
fn test_redescripte() {
    let filter = ToolFilter::allow_all().with_redescripte("a", "new description for a");
    let tools = vec![make_tool("a"), make_tool("b")];
    let result = filter.apply(tools);
    assert_eq!(result[0].description.as_deref(), Some("new description for a"));
    assert_eq!(result[1].description.as_deref(), Some(""));
}

#[test]
fn redescription_is_keyed_by_the_original_name() {
    let filter = ToolFilter::allow_all().with_rename("a", "b").with_redescripte("a", "D");
    let result = filter.apply(vec![make_tool("a")]);
    assert_eq!(result.len(), 1);
    assert_eq!(result[0].name, "b");
    assert_eq!(result[0].description.as_deref(), Some("D"));
    let filter = ToolFilter::allow_all()
        .with_rename("search", "web_search")
        .with_redescripte("web_search", "never used");
    let result = filter.apply(vec![make_tool("search")]);
    assert_eq!(result[0].name, "web_search");
    assert_eq!(result[0].description.as_deref(), Some(""));
}

#[test]
fn later_rename_of_the_same_tool_wins() {
    let filter = ToolFilter::allow_all().with_rename("a", "x").with_rename("a", "y");
    let result = filter.apply(vec![make_tool("a")]);
    assert_eq!(result[0].name, "y");
}

#[test]
fn allow_list_ignores_deny_list_and_keeps_rest() {
    let filter = ToolFilter::allowed(&strings(&["b"]));
    let tools = vec![
        ToolEntry { name: "a".to_string(), description: None, rest: 1u8 },
        ToolEntry { name: "b".to_string(), description: None, rest: 2u8 },
    ];
    let result = filter.apply(tools);
    assert_eq!(result.len(), 1);
    assert_eq!(result[0].rest, 2);
    assert_eq!(result[0].description, None);
}
