use crabviz::lsp_types::{
    CallHierarchyIncomingCall, CallHierarchyItem, CallHierarchyOutgoingCall, DocumentSymbol,
    Position, Range, SymbolKind, Uri,
};
use crabviz::GraphGenerator;

#[test]
fn test_nested_borrow() {
    let mut generator = GraphGenerator::new("test_root".to_string(), "");

    let file_path = "test_file.rs".to_string();
    let position = Position { line: 1, character: 1 };
    let range = Range { start: position, end: Position { line: 1, character: 10 } };

    let symbols = vec![DocumentSymbol {
        name: "test_function".to_string(),
        detail: None,
        kind: SymbolKind::Function,
        tags: None,
        range: range.clone(),
        selection_range: range.clone(),
        children: vec![],
    }];
    generator.add_file(file_path.clone(), symbols);

    let incoming_calls = vec![create_test_incoming_call()];
    generator.add_incoming_calls(file_path.clone(), position, incoming_calls);

    let outgoing_calls = vec![create_test_outgoing_call()];
    generator.add_outgoing_calls(file_path.clone(), position, outgoing_calls);

    let dot = generator.generate_dot_source();
    assert!(!dot.is_empty(), "生成的dot源码不应为空");

    let mermaid = generator.generate_mermaid_source();
    assert!(!mermaid.is_empty(), "生成的mermaid源码不应为空");
}

fn create_test_incoming_call() -> CallHierarchyIncomingCall {
    let from_range = Range {
        start: Position { line: 2, character: 2 },
        end: Position { line: 2, character: 20 },
    };

    CallHierarchyIncomingCall {
        from: CallHierarchyItem {
            name: "caller_function".to_string(),
            kind: SymbolKind::Function,
            tags: None,
            detail: None,
            uri: Uri { path: "test_file.rs".to_string() },
            range: from_range.clone(),
            selection_range: from_range,
            data: None,
        },
        from_ranges: vec![from_range],
    }
}

fn create_test_outgoing_call() -> CallHierarchyOutgoingCall {
    let to_range = Range {
        start: Position { line: 3, character: 3 },
        end: Position { line: 3, character: 30 },
    };

    CallHierarchyOutgoingCall {
        to: CallHierarchyItem {
            name: "callee_function".to_string(),
            kind: SymbolKind::Function,
            tags: None,
            detail: None,
            uri: Uri { path: "test_file.rs".to_string() },
            range: to_range.clone(),
            selection_range: to_range,
            data: None,
        },
        from_ranges: vec![to_range],
    }
}
