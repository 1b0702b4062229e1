use crabviz::graph_model;
use crabviz::lsp_types::{
    CallHierarchyIncomingCall, CallHierarchyItem, CallHierarchyOutgoingCall, DocumentSymbol,
    Location, Position, Range, SymbolKind, Uri,
};
use crabviz::text;
use crabviz::{GraphBuilder, GraphGenerator, RelationKind};

fn pos(line: u32, character: u32) -> Position {
    Position { line, character }
}

fn rng(l1: u32, c1: u32, l2: u32, c2: u32) -> Range {
    Range { start: pos(l1, c1), end: pos(l2, c2) }
}

fn func(name: &str, range: Range, children: Vec<DocumentSymbol>) -> DocumentSymbol {
    DocumentSymbol {
        name: name.to_string(),
        detail: None,
        kind: SymbolKind::Function,
        tags: None,
        range,
        selection_range: range,
        children,
    }
}

fn item(name: &str, path: &str, range: Range) -> CallHierarchyItem {
    CallHierarchyItem {
        name: name.to_string(),
        kind: SymbolKind::Function,
        tags: None,
        detail: None,
        uri: Uri { path: path.to_string() },
        range,
        selection_range: range,
        data: None,
    }
}

#[test]
fn add_same_path_twice_keeps_first_symbols() {
    let mut g = GraphGenerator::new("root".to_string(), "rust");
    assert!(g.add_file("a.rs".to_string(), vec![func("first", rng(0, 0, 1, 0), vec![])]));
    assert!(!g.add_file("a.rs".to_string(), vec![func("second", rng(2, 0, 3, 0), vec![])]));
    let dot = g.generate_dot_source();
    assert!(dot.contains("first"));
    assert!(!dot.contains("second"));
}

#[test]
fn nested_repair_round_trip() {
    let mut g = GraphGenerator::new("root".to_string(), "rust");
    g.add_file("a.rs".to_string(), vec![func("A", rng(0, 0, 10, 0), vec![])]);
    g.add_file("b.rs".to_string(), vec![func("callee", rng(0, 0, 1, 0), vec![])]);
    let caller = item("inner", "a.rs", rng(2, 0, 5, 0));
    g.add_incoming_calls(
        "b.rs".to_string(),
        pos(0, 0),
        vec![CallHierarchyIncomingCall { from: caller, from_ranges: vec![rng(2, 0, 5, 0)] }],
    );

    let dot1 = g.generate_dot_source();
    assert!(dot1.contains("inner"), "the repaired nested symbol must be displayed");
    assert!(dot1.contains("datafrom"), "the repaired caller must produce an edge");
    assert_eq!(dot1.matches("inner").count(), 1);

    // the repaired symbol is now a child of A in the outline
    let graph = g.generate_graph();
    let hits = graph.search_symbols("inner", true);
    assert_eq!(hits.len(), 1);
    assert_eq!(hits[0].file_path, "a.rs");
    assert_eq!(hits[0].global_position.line, 2);

    // a second render must not duplicate it
    let dot2 = g.generate_dot_source();
    assert_eq!(dot1, dot2);
    assert_eq!(dot2.matches("inner").count(), 1);
}

#[test]
fn render_is_stable_without_new_data() {
    let mut g = GraphGenerator::new("root".to_string(), "rust");
    g.add_file(
        "a.rs".to_string(),
        vec![func("f", rng(0, 0, 1, 0), vec![]), func("h", rng(4, 0, 6, 0), vec![])],
    );
    let callee = item("f", "a.rs", rng(0, 0, 1, 0));
    g.add_outgoing_calls(
        "a.rs".to_string(),
        pos(4, 0),
        vec![CallHierarchyOutgoingCall { to: callee, from_ranges: vec![rng(5, 0, 5, 5)] }],
    );
    let first = g.generate_dot_source();
    let second = g.generate_dot_source();
    assert_eq!(first, second);
    let mm1 = g.generate_mermaid_source();
    let mm2 = g.generate_mermaid_source();
    assert_eq!(mm1, mm2);
}

#[test]
fn edge_kind_separation() {
    let mut g = GraphGenerator::new("root".to_string(), "rust");
    g.add_file(
        "a.rs".to_string(),
        vec![func("x", rng(1, 1, 1, 10), vec![]), func("y", rng(5, 1, 5, 10), vec![])],
    );
    // a call relation from x to y
    let caller = item("x", "a.rs", rng(1, 1, 1, 10));
    g.add_incoming_calls(
        "a.rs".to_string(),
        pos(5, 1),
        vec![CallHierarchyIncomingCall { from: caller, from_ranges: vec![rng(1, 2, 1, 5)] }],
    );
    // an implementation relation from x to y
    g.add_interface_implementations(
        "a.rs".to_string(),
        pos(5, 1),
        vec![Location { uri: Uri { path: "a.rs".to_string() }, range: rng(1, 1, 1, 10) }],
    );
    let dot = g.generate_dot_source();
    assert_eq!(dot.matches("datafrom").count(), 2, "exactly two distinct edges");
    assert_eq!(dot.matches("class=\"impl\"").count(), 1, "exactly one implementation edge");
}

#[test]
fn directory_clustering() {
    let mut g = GraphGenerator::new("a".to_string(), "rust");
    g.add_file("a/b/x.ext".to_string(), vec![func("fx", rng(0, 0, 1, 0), vec![])]);
    g.add_file("a/b/y.ext".to_string(), vec![func("fy", rng(0, 0, 1, 0), vec![])]);
    g.add_file("a/z.ext".to_string(), vec![func("fz", rng(0, 0, 1, 0), vec![])]);
    let dot = g.generate_dot_source();
    // the root-relative cluster for `a` holds z directly ...
    let root_at = dot.find("subgraph \"cluster_\" {").expect("root cluster");
    // ... and the cluster for `a/b` is nested strictly inside it
    let b_at = dot.find("subgraph \"cluster_b\" {").expect("nested cluster");
    assert!(root_at < b_at);
    let b_block = &dot[b_at..dot[b_at..].find("};").map(|e| b_at + e).unwrap()];
    assert!(b_block.contains("1 2"), "x and y sit inside the b cluster");
    assert!(!b_block.contains('3'), "z stays at the outer level");
    let root_block = &dot[root_at..b_at];
    assert!(root_block.contains('3'));
}

#[test]
fn dropped_outgoing_relation_changes_nothing() {
    let mut g = GraphGenerator::new("root".to_string(), "rust");
    g.add_file("a.rs".to_string(), vec![func("f", rng(0, 0, 1, 0), vec![])]);
    let callee = item("ghostly", "unknown.rs", rng(7, 0, 8, 0));
    g.add_outgoing_calls(
        "a.rs".to_string(),
        pos(0, 0),
        vec![CallHierarchyOutgoingCall { to: callee, from_ranges: vec![rng(0, 1, 0, 5)] }],
    );
    let dot = g.generate_dot_source();
    assert!(!dot.contains("datafrom"), "zero edges");
    assert!(!dot.contains("ghostly"), "no outline is mutated for outgoing endpoints");
    let graph = g.generate_graph();
    assert_eq!(graph.search_symbols("ghostly", false).len(), 0);
}

#[test]
fn dot_escaping_round_trip() {
    let mut g = GraphGenerator::new("root".to_string(), "rust");
    g.add_file("a.rs".to_string(), vec![func("A<B>&\"C\"", rng(0, 0, 1, 0), vec![])]);
    let dot = g.generate_dot_source();
    assert!(dot.contains("A&lt;B&gt;&amp;&quot;C&quot;"));
    assert!(!dot.contains("A<B>"));
    // reversing the documented rule restores the original name
    let escaped = text::escape_html("A<B>&\"C\"");
    assert_eq!(escaped, "A&lt;B&gt;&amp;&quot;C&quot;");
}

#[test]
fn mermaid_escaping() {
    let mut g = GraphGenerator::new("root".to_string(), "rust");
    g.add_file("a.rs".to_string(), vec![func("X[\"Y\"]", rng(0, 0, 1, 0), vec![])]);
    let mm = g.generate_mermaid_source();
    assert!(mm.contains("X\\[\\\"Y\\\"\\]"));
    let escaped = text::escape_mermaid("X[\"Y\"]");
    assert_eq!(escaped, "X\\[\\\"Y\\\"\\]");
}

#[test]
fn relation_store_overwrites_per_key() {
    let mut g = GraphGenerator::new("root".to_string(), "rust");
    g.add_file(
        "a.rs".to_string(),
        vec![func("f", rng(0, 0, 1, 0), vec![]), func("h", rng(4, 0, 6, 0), vec![])],
    );
    // first a resolvable caller, then re-post the same key with an
    // unresolvable one: the last write wins
    let good = item("h", "a.rs", rng(4, 0, 6, 0));
    g.add_incoming_calls(
        "a.rs".to_string(),
        pos(0, 0),
        vec![CallHierarchyIncomingCall { from: good, from_ranges: vec![rng(5, 0, 5, 5)] }],
    );
    let bad = item("nobody", "missing.rs", rng(0, 0, 1, 0));
    g.add_incoming_calls(
        "a.rs".to_string(),
        pos(0, 0),
        vec![CallHierarchyIncomingCall { from: bad, from_ranges: vec![rng(0, 1, 0, 2)] }],
    );
    let dot = g.generate_dot_source();
    assert!(!dot.contains("datafrom"), "the overwritten caller list is gone");
}

#[test]
fn highlight_marks_the_cell() {
    let mut g = GraphGenerator::new("root".to_string(), "rust");
    g.add_file("a.rs".to_string(), vec![func("f", rng(2, 4, 3, 0), vec![])]);
    let before = g.generate_dot_source();
    assert!(!before.contains("#4fe1f4"));
    g.highlight("a.rs".to_string(), pos(2, 4));
    let after = g.generate_dot_source();
    assert!(after.contains("#4fe1f4"));
    let mm = g.generate_mermaid_source();
    assert!(mm.contains(":::highlight"));
}

#[test]
fn language_strategies() {
    let go = GraphGenerator::new("root".to_string(), "GO");
    assert!(go.should_filter_out_file("pkg/thing_test.go"));
    assert!(!go.should_filter_out_file("pkg/thing.go"));
    let rust = GraphGenerator::new("root".to_string(), "Rust");
    assert!(!rust.should_filter_out_file("lib_test.go"));

    // the JavaScript strategy hides callback and anonymous functions
    let mut js = GraphGenerator::new("root".to_string(), "JavaScript");
    js.add_file(
        "a.js".to_string(),
        vec![
            func("useful", rng(0, 0, 1, 0), vec![]),
            func("timer callback", rng(2, 0, 3, 0), vec![]),
            func("<function>", rng(4, 0, 5, 0), vec![]),
        ],
    );
    let dot = js.generate_dot_source();
    assert!(dot.contains("useful"));
    assert!(!dot.contains("timer callback"));
    assert!(!dot.contains("&lt;function&gt;"));
}

#[test]
fn variables_are_not_displayed() {
    let mut g = GraphGenerator::new("root".to_string(), "rust");
    g.add_file(
        "a.rs".to_string(),
        vec![
            func("shown", rng(0, 0, 1, 0), vec![]),
            DocumentSymbol {
                name: "hidden".to_string(),
                detail: None,
                kind: SymbolKind::Variable,
                tags: None,
                range: rng(2, 0, 3, 0),
                selection_range: rng(2, 0, 3, 0),
                children: vec![],
            },
        ],
    );
    let dot = g.generate_dot_source();
    assert!(dot.contains("shown"));
    assert!(!dot.contains("hidden"));
}

#[test]
fn decimal_formatting() {
    assert_eq!(text::u32_string(0), "0");
    assert_eq!(text::u32_string(7), "7");
    assert_eq!(text::u32_string(1234567890), "1234567890");
    assert_eq!(text::u32_string(u32::MAX), "4294967295");
}

#[test]
fn builder_and_searches() {
    let mut b = GraphBuilder::new();
    let inner = func("inner_detail", rng(1, 0, 2, 0), vec![]);
    let id_a = b.add_file("src/alpha.rs".to_string(), vec![func("AlphaMain", rng(0, 0, 5, 0), vec![inner])]);
    let id_b = b.add_file("src/beta.rs".to_string(), vec![func("BetaHelper", rng(0, 0, 3, 0), vec![])]);
    assert_eq!(id_a, 1);
    assert_eq!(id_b, 2);
    assert_eq!(b.get_file_id("src/alpha.rs"), Some(1));
    assert_eq!(b.get_file_id("nowhere.rs"), None);

    let from = graph_model::GlobalPosition { file_id: 1, line: 0, character: 0 };
    let to = graph_model::GlobalPosition { file_id: 2, line: 0, character: 0 };
    b.add_relation(from, to, RelationKind::Call);
    // a second relation between the same endpoints is dropped, tag and all
    b.add_relation(from, to, RelationKind::Impl);
    let g = b.build();
    assert_eq!(g.relations.len(), 1);
    assert!(matches!(g.relations[0].kind, RelationKind::Call));

    // substring search is case-insensitive by default and recurses
    let hits = g.search_symbols("alpha", false);
    assert_eq!(hits.len(), 1);
    assert_eq!(hits[0].symbol_name, "AlphaMain");
    assert_eq!(g.search_symbols("alpha", true).len(), 0);
    assert_eq!(g.search_symbols("detail", false).len(), 1);

    let fns = g.search_by_symbol_kind(graph_model::SymbolKind::Function);
    assert_eq!(fns.len(), 3);
    assert_eq!(g.search_by_symbol_kind(graph_model::SymbolKind::Struct).len(), 0);

    let files = g.search_files("BETA", false);
    assert_eq!(files.len(), 1);
    assert_eq!(files[0].file_id, 2);
    assert_eq!(g.search_files("BETA", true).len(), 0);

    let rels = g.get_symbol_relations(from);
    assert_eq!(rels.len(), 1);
    let nobody = graph_model::GlobalPosition { file_id: 9, line: 9, character: 9 };
    assert_eq!(g.get_symbol_relations(nobody).len(), 0);
}

#[test]
fn generate_graph_reflects_relations() {
    let mut g = GraphGenerator::new("root".to_string(), "rust");
    g.add_file("a.rs".to_string(), vec![func("f", rng(0, 0, 1, 0), vec![])]);
    g.add_file("b.rs".to_string(), vec![func("h", rng(4, 0, 6, 0), vec![])]);
    let caller = item("h", "b.rs", rng(4, 0, 6, 0));
    g.add_incoming_calls(
        "a.rs".to_string(),
        pos(0, 0),
        vec![CallHierarchyIncomingCall { from: caller, from_ranges: vec![rng(5, 0, 5, 2)] }],
    );
    let graph = g.generate_graph();
    assert_eq!(graph.files.len(), 2);
    assert_eq!(graph.files[0].id, 1);
    assert_eq!(graph.files[1].id, 2);
    assert_eq!(graph.relations.len(), 1);
    assert_eq!(graph.relations[0].from.file_id, 2);
    assert_eq!(graph.relations[0].to.file_id, 1);
    assert!(matches!(graph.relations[0].kind, RelationKind::Call));
}

#[test]
fn repair_keeps_sibling_order() {
    // two top-level functions; the repaired symbol lands nested inside the
    // first, and the outline ordering survives, visible through the view
    let mut g = GraphGenerator::new("root".to_string(), "rust");
    g.add_file(
        "a.rs".to_string(),
        vec![func("early", rng(0, 0, 10, 0), vec![]), func("late", rng(20, 0, 30, 0), vec![])],
    );
    g.add_file("b.rs".to_string(), vec![func("callee", rng(0, 0, 1, 0), vec![])]);
    let caller = item("middle", "a.rs", rng(3, 0, 6, 0));
    g.add_incoming_calls(
        "b.rs".to_string(),
        pos(0, 0),
        vec![CallHierarchyIncomingCall { from: caller, from_ranges: vec![rng(4, 0, 4, 4)] }],
    );
    g.generate_dot_source();
    let graph = g.generate_graph();
    let hits = graph.search_symbols("middle", true);
    assert_eq!(hits.len(), 1, "the repaired symbol is stored once, nested");
    let all = graph.search_by_symbol_kind(graph_model::SymbolKind::Function);
    // early, middle (nested), late, callee
    assert_eq!(all.len(), 4);
}

#[test]
fn mermaid_directory_titles() {
    let mut g = GraphGenerator::new("a".to_string(), "rust");
    g.add_file("plain.rs".to_string(), vec![func("top", rng(0, 0, 1, 0), vec![])]);
    g.add_file("a/b/deep.rs".to_string(), vec![func("low", rng(0, 0, 1, 0), vec![])]);
    let mm = g.generate_mermaid_source();
    // a file without a parent directory sits under the bare `/` group
    assert!(mm.contains("subgraph dir0 [\"/\"]"));
    // a directory under the root is titled by its root-relative path
    assert!(mm.contains("[\"/b\"]"));
    // file groups are titled by the root-relative file path
    assert!(mm.contains("[\"b/deep.rs\"]"));
    assert!(mm.contains("[\"plain.rs\"]"));
}

#[test]
fn highlight_on_unknown_file_is_dropped() {
    let mut g = GraphGenerator::new("root".to_string(), "rust");
    g.add_file("a.rs".to_string(), vec![func("f", rng(0, 0, 1, 0), vec![])]);
    g.highlight("missing.rs".to_string(), pos(0, 0));
    let dot = g.generate_dot_source();
    assert!(!dot.contains("#4fe1f4"));
}

#[test]
fn mermaid_edges_connect_cell_ids() {
    let mut g = GraphGenerator::new("root".to_string(), "rust");
    g.add_file(
        "a.rs".to_string(),
        vec![func("f", rng(0, 0, 1, 0), vec![]), func("h", rng(4, 2, 6, 0), vec![])],
    );
    let caller = item("h", "a.rs", rng(4, 2, 6, 0));
    g.add_incoming_calls(
        "a.rs".to_string(),
        pos(0, 0),
        vec![CallHierarchyIncomingCall { from: caller, from_ranges: vec![rng(5, 0, 5, 2)] }],
    );
    let mm = g.generate_mermaid_source();
    assert!(mm.contains("    1_4_2 --> 1_0_0\n"));
}

#[test]
fn builder_latest_file_shadows_duplicates() {
    let mut b = GraphBuilder::new();
    let first = b.add_file("dup.rs".to_string(), vec![func("old_one", rng(0, 0, 1, 0), vec![])]);
    let second = b.add_file("dup.rs".to_string(), vec![func("new_one", rng(0, 0, 1, 0), vec![])]);
    assert_eq!(first, 1);
    assert_eq!(second, 2);
    // the most recent file under a path wins the lookup
    assert_eq!(b.get_file_id("dup.rs"), Some(second));
}

#[test]
fn outline_invariant_checker() {
    let ordered = vec![func("a", rng(0, 0, 1, 0), vec![]), func("b", rng(2, 0, 3, 0), vec![])];
    assert!(crabviz::lsp_types::symbols_well_formed(&ordered));
    let out_of_order = vec![func("b", rng(2, 0, 3, 0), vec![]), func("a", rng(0, 0, 1, 0), vec![])];
    assert!(!crabviz::lsp_types::symbols_well_formed(&out_of_order));
    let overlapping = vec![func("a", rng(0, 0, 2, 5), vec![]), func("b", rng(2, 0, 3, 0), vec![])];
    assert!(!crabviz::lsp_types::symbols_well_formed(&overlapping));
    let escaping_child = vec![func("p", rng(1, 0, 2, 0), vec![func("c", rng(1, 0, 9, 0), vec![])])];
    assert!(!crabviz::lsp_types::symbols_well_formed(&escaping_child));
    let nested = vec![func("p", rng(1, 0, 9, 0), vec![func("c", rng(2, 0, 3, 0), vec![])])];
    assert!(crabviz::lsp_types::symbols_well_formed(&nested));
    let backwards = vec![func("r", rng(5, 0, 1, 0), vec![])];
    assert!(!crabviz::lsp_types::symbols_well_formed(&backwards));
}

#[test]
fn unicode_case_insensitive_search() {
    let mut b = GraphBuilder::new();
    b.add_file("u.rs".to_string(), vec![func("Ärger", rng(0, 0, 1, 0), vec![])]);
    let g = b.build();
    // case folding is the full Unicode mapping, not only ASCII
    assert_eq!(g.search_symbols("ärger", false).len(), 1);
    assert_eq!(g.search_symbols("ÄRGER", false).len(), 1);
    assert_eq!(g.search_symbols("ärger", true).len(), 0);
    assert_eq!(g.search_files("u.RS", false).len(), 1);
    assert_eq!(g.search_files("u.RS", true).len(), 0);
}
