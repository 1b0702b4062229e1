use crabviz::lsp_types::{
    CallHierarchyIncomingCall, CallHierarchyItem, CallHierarchyOutgoingCall, DocumentSymbol,
    Location, Position, Range, SymbolKind, Uri,
};
use crabviz::GraphGenerator;

#[test]
fn test_add_file() {
    let mut generator = GraphGenerator::new("test_root".to_string(), "rust");

    let file_path = "test_file.rs";
    let range = Range {
        start: Position { line: 1, character: 1 },
        end: Position { line: 1, character: 10 },
    };

    let symbols = vec![DocumentSymbol {
        name: "test_function".to_string(),
        detail: None,
        kind: SymbolKind::Function,
        tags: None,
        range: range.clone(),
        selection_range: range.clone(),
        children: vec![],
    }];

    let added = generator.add_file(file_path.to_string(), symbols);
    assert!(added, "文件应该被成功添加");

    let range2 = Range {
        start: Position { line: 2, character: 1 },
        end: Position { line: 2, character: 10 },
    };

    let symbols2 = vec![DocumentSymbol {
        name: "another_function".to_string(),
        detail: None,
        kind: SymbolKind::Function,
        tags: None,
        range: range2.clone(),
        selection_range: range2.clone(),
        children: vec![],
    }];

    let added_again = generator.add_file(file_path.to_string(), symbols2);
    assert!(!added_again, "重复添加同一个文件应该失败");

    let test_file = "test_file_test.go";
    let generator_go = GraphGenerator::new("test_root".to_string(), "Go");
    let should_filter = generator_go.should_filter_out_file(test_file);
    assert!(should_filter, "Go语言实现应该过滤掉测试文件");
}

#[test]
fn test_add_calls() {
    let mut generator = GraphGenerator::new("test_root".to_string(), "rust");

    let file_path = "test_file.rs";
    let range = Range {
        start: Position { line: 1, character: 1 },
        end: Position { line: 1, character: 10 },
    };

    let symbols = vec![DocumentSymbol {
        name: "test_function".to_string(),
        detail: None,
        kind: SymbolKind::Function,
        tags: None,
        range: range.clone(),
        selection_range: range.clone(),
        children: vec![],
    }];

    generator.add_file(file_path.to_string(), symbols);

    let position = Position { line: 1, character: 1 };
    let incoming_calls = vec![create_test_incoming_call()];
    generator.add_incoming_calls(file_path.to_string(), position.clone(), incoming_calls);

    let outgoing_calls = vec![create_test_outgoing_call()];
    generator.add_outgoing_calls(file_path.to_string(), position.clone(), outgoing_calls);

    let locations = vec![create_test_location()];
    generator.add_interface_implementations(file_path.to_string(), position.clone(), locations);

    generator.highlight(file_path.to_string(), position.clone());

    let dot = generator.generate_dot_source();
    assert!(!dot.is_empty(), "生成的dot源码不应为空");

    let mermaid = generator.generate_mermaid_source();
    assert!(!mermaid.is_empty(), "生成的mermaid源码不应为空");
}

#[test]
fn test_generate_dot_source() {
    let mut generator = GraphGenerator::new("test_root".to_string(), "rust");

    for i in 0..3 {
        let file_path = format!("test_file_{}.rs", i);
        let mut symbols = Vec::new();

        for j in 0..2 {
            let position = Position { line: j, character: 0 };
            let range = Range { start: position, end: Position { line: j, character: 10 } };

            symbols.push(DocumentSymbol {
                name: format!("function_{}_{}", i, j),
                detail: None,
                kind: SymbolKind::Function,
                tags: None,
                range: range.clone(),
                selection_range: range.clone(),
                children: vec![],
            });
        }

        generator.add_file(file_path, symbols);
    }

    let file_path = "test_file_0.rs";
    let position = Position { line: 0, character: 0 };

    let incoming_calls = vec![create_test_incoming_call()];
    generator.add_incoming_calls(file_path.to_string(), position.clone(), incoming_calls);

    let outgoing_calls = vec![create_test_outgoing_call()];
    generator.add_outgoing_calls(file_path.to_string(), position.clone(), outgoing_calls);

    let dot = generator.generate_dot_source();

    assert!(dot.contains("digraph"), "dot源码应该包含digraph关键字");
    assert!(dot.contains("test_file_0"), "dot源码应该包含文件名");
    assert!(dot.contains("function_0_0"), "dot源码应该包含函数名");
}

#[test]
fn test_generate_mermaid_source() {
    let mut generator = GraphGenerator::new("test_root".to_string(), "rust");

    for i in 0..3 {
        let file_path = format!("test_file_{}.rs", i);
        let mut symbols = Vec::new();

        for j in 0..2 {
            let position = Position { line: j, character: 0 };
            let range = Range { start: position, end: Position { line: j, character: 10 } };

            symbols.push(DocumentSymbol {
                name: format!("function_{}_{}", i, j),
                detail: None,
                kind: SymbolKind::Function,
                tags: None,
                range: range.clone(),
                selection_range: range.clone(),
                children: vec![],
            });
        }

        generator.add_file(file_path, symbols);
    }

    let file_path = "test_file_0.rs";
    let position = Position { line: 0, character: 0 };

    let incoming_calls = vec![create_test_incoming_call()];
    generator.add_incoming_calls(file_path.to_string(), position.clone(), incoming_calls);

    let outgoing_calls = vec![create_test_outgoing_call()];
    generator.add_outgoing_calls(file_path.to_string(), position.clone(), outgoing_calls);

    let mermaid = generator.generate_mermaid_source();

    assert!(mermaid.contains("flowchart"), "mermaid源码应该包含flowchart关键字");
    assert!(mermaid.contains("test_file_0"), "mermaid源码应该包含文件名");
    assert!(mermaid.contains("function_0_0"), "mermaid源码应该包含函数名");
}

#[test]
fn test_highlight() {
    let mut generator = GraphGenerator::new("test_root".to_string(), "rust");

    let file_path = "test_file.rs";
    let range = Range {
        start: Position { line: 1, character: 1 },
        end: Position { line: 1, character: 10 },
    };

    let symbols = vec![DocumentSymbol {
        name: "test_function".to_string(),
        detail: None,
        kind: SymbolKind::Function,
        tags: None,
        range: range.clone(),
        selection_range: range.clone(),
        children: vec![],
    }];

    generator.add_file(file_path.to_string(), symbols);

    let position = Position { line: 1, character: 1 };
    generator.highlight(file_path.to_string(), position.clone());

    let dot = generator.generate_dot_source();
    assert!(!dot.is_empty(), "生成的dot源码不应为空");

    let mermaid = generator.generate_mermaid_source();
    assert!(!mermaid.is_empty(), "生成的mermaid源码不应为空");
}

#[test]
fn generator_tests_test_edge_data_attributes() {
    let mut generator = GraphGenerator::new("test_root".to_string(), "rust");

    let file_path = "test.rs";
    let range1 = Range {
        start: Position { line: 1, character: 0 },
        end: Position { line: 1, character: 10 },
    };
    let range2 = Range {
        start: Position { line: 5, character: 0 },
        end: Position { line: 5, character: 10 },
    };

    let symbols = vec![
        DocumentSymbol {
            name: "caller_function".to_string(),
            detail: None,
            kind: SymbolKind::Function,
            tags: None,
            range: range1.clone(),
            selection_range: range1.clone(),
            children: vec![],
        },
        DocumentSymbol {
            name: "callee_function".to_string(),
            detail: None,
            kind: SymbolKind::Function,
            tags: None,
            range: range2.clone(),
            selection_range: range2.clone(),
            children: vec![],
        },
    ];

    generator.add_file(file_path.to_string(), symbols);

    let from_range = Range {
        start: Position { line: 1, character: 0 },
        end: Position { line: 1, character: 10 },
    };

    let incoming_call = CallHierarchyIncomingCall {
        from: CallHierarchyItem {
            name: "caller_function".to_string(),
            kind: SymbolKind::Function,
            tags: None,
            detail: None,
            uri: Uri { path: file_path.to_string() },
            range: from_range.clone(),
            selection_range: from_range.clone(),
            data: None,
        },
        from_ranges: vec![from_range],
    };

    generator.add_incoming_calls(file_path.to_string(), range2.start, vec![incoming_call]);

    let outgoing_call = CallHierarchyOutgoingCall {
        to: CallHierarchyItem {
            name: "callee_function".to_string(),
            kind: SymbolKind::Function,
            tags: None,
            detail: None,
            uri: Uri { path: file_path.to_string() },
            range: range2.clone(),
            selection_range: range2.clone(),
            data: None,
        },
        from_ranges: vec![range1.clone()],
    };

    generator.add_outgoing_calls(file_path.to_string(), range1.start, vec![outgoing_call]);

    let dot_source = generator.generate_dot_source();
    println!("Generated DOT source for edge attributes test:");
    println!("{}", dot_source);

    assert!(dot_source.contains("datafrom"), "DOT source should contain datafrom attribute");
    assert!(dot_source.contains("datato"), "DOT source should contain datato attribute");

    println!("✅ Edge data attributes test passed!");
}

#[test]
fn test_performance() {
    let mut generator = GraphGenerator::new("test_root".to_string(), "rust");

    let file_count = 10;
    let symbol_count = 20;

    for i in 0..file_count {
        let file_path = format!("test_file_{}.rs", i);
        let mut symbols = Vec::new();

        for j in 0..symbol_count {
            let position = Position { line: j as u32, character: 0 };
            let range = Range { start: position, end: Position { line: j as u32, character: 10 } };

            symbols.push(DocumentSymbol {
                name: format!("function_{}_{}", i, j),
                detail: None,
                kind: SymbolKind::Function,
                tags: None,
                range: range.clone(),
                selection_range: range.clone(),
                children: vec![],
            });
        }

        generator.add_file(file_path, symbols);
    }

    for i in 0..file_count {
        let file_path = format!("test_file_{}.rs", i);

        for j in 0..symbol_count {
            let position = Position { line: j as u32, character: 0 };

            let incoming_calls = vec![create_test_incoming_call()];
            generator.add_incoming_calls(file_path.clone(), position.clone(), incoming_calls);

            let outgoing_calls = vec![create_test_outgoing_call()];
            generator.add_outgoing_calls(file_path.clone(), position.clone(), outgoing_calls);
        }
    }

    let start = std::time::Instant::now();
    let dot = generator.generate_dot_source();
    let dot_duration = start.elapsed();

    let start = std::time::Instant::now();
    let mermaid = generator.generate_mermaid_source();
    let mermaid_duration = start.elapsed();

    println!("生成dot源码耗时: {:?}", dot_duration);
    println!("生成mermaid源码耗时: {:?}", mermaid_duration);

    assert!(!dot.is_empty(), "生成的dot源码不应为空");
    assert!(!mermaid.is_empty(), "生成的mermaid源码不应为空");
}

fn create_test_incoming_call() -> CallHierarchyIncomingCall {
    let from_range = Range {
        start: Position { line: 2, character: 2 },
        end: Position { line: 2, character: 20 },
    };

    CallHierarchyIncomingCall {
        from: CallHierarchyItem {
            name: "caller_function".to_string(),
            kind: SymbolKind::Function,
            tags: None,
            detail: None,
            uri: Uri { path: "test_file.rs".to_string() },
            range: from_range.clone(),
            selection_range: from_range,
            data: None,
        },
        from_ranges: vec![from_range],
    }
}

fn create_test_outgoing_call() -> CallHierarchyOutgoingCall {
    let to_range = Range {
        start: Position { line: 3, character: 3 },
        end: Position { line: 3, character: 30 },
    };

    CallHierarchyOutgoingCall {
        to: CallHierarchyItem {
            name: "callee_function".to_string(),
            kind: SymbolKind::Function,
            tags: None,
            detail: None,
            uri: Uri { path: "test_file.rs".to_string() },
            range: to_range.clone(),
            selection_range: to_range,
            data: None,
        },
        from_ranges: vec![to_range],
    }
}

fn create_test_location() -> Location {
    let range = Range {
        start: Position { line: 4, character: 4 },
        end: Position { line: 4, character: 40 },
    };

    Location { uri: Uri { path: "test_file.rs".to_string() }, range }
}
