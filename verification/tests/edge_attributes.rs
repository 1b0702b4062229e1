use crabviz::lsp_types::{
    CallHierarchyIncomingCall, CallHierarchyItem, DocumentSymbol, Position, Range, SymbolKind, Uri,
};
use crabviz::GraphGenerator;

#[test]
fn test_edge_attributes_test_edge_data_attributes() {
    let mut generator = GraphGenerator::new("test".to_string(), "rust");

    let range = Range {
        start: Position { line: 1, character: 0 },
        end: Position { line: 1, character: 10 },
    };

    generator.add_file(
        "test.rs".to_string(),
        vec![DocumentSymbol {
            name: "test_function".to_string(),
            detail: None,
            kind: SymbolKind::Function,
            tags: None,
            range,
            selection_range: range,
            children: vec![],
        }],
    );

    let caller = CallHierarchyItem {
        name: "caller".to_string(),
        kind: SymbolKind::Function,
        tags: None,
        detail: None,
        uri: Uri { path: "file:///test.rs".to_string() },
        range,
        selection_range: range,
        data: None,
    };

    generator.add_incoming_calls(
        "test.rs".to_string(),
        Position { line: 5, character: 0 },
        vec![CallHierarchyIncomingCall { from: caller, from_ranges: vec![range] }],
    );

    let dot_source = generator.generate_dot_source();
    println!("Generated DOT source:");
    println!("{}", dot_source);

    if dot_source.contains("data-from") && dot_source.contains("data-to") {
        println!("\n✅ SUCCESS: Edge data attributes are present!");
    } else {
        println!("\n❌ FAILED: Edge data attributes are missing!");
        if !dot_source.contains("data-from") {
            println!("   Missing: data-from attribute");
        }
        if !dot_source.contains("data-to") {
            println!("   Missing: data-to attribute");
        }
    }
}
