//! The DOT serialization of the resolved graph: one HTML-like table per
//! file, directory clusters, and directed edges with navigation anchors.
//! Every emitting function is proved to produce exactly the text its
//! specification describes.

use vstd::prelude::*;

use crate::graph::{
    cell_height, cell_view, cells_height, cells_view, lemma_cells_height_mem,
    lemma_cells_view_index, lemma_sg_forest_height_mem, lemma_subgraphs_view_index, sg_forest_height,
    sg_height, subgraph_view, subgraphs_view, table_view, Cell, CellView, Edge, EdgeKind, NodeId,
    Subgraph, SubgraphView, TableNode, TableView,
};
use crate::text::{escape_html, push_u32_dec, spec_dec, spec_escape_html};

verus! {

/// The cell anchor inside its table: `line_character`.
pub open spec fn port_of(line: u32, character: u32) -> Seq<char> {
    spec_dec(line as int) + "_"@ + spec_dec(character as int)
}

/// A quoted node reference: `fileId:"line_character"`.
pub open spec fn node_ref(n: NodeId) -> Seq<char> {
    spec_dec(n.file_id as int) + ":\""@ + port_of(n.line, n.character) + "\""@
}

/// A plain node anchor: `fileId:line_character`.
pub open spec fn node_anchor(n: NodeId) -> Seq<char> {
    spec_dec(n.file_id as int) + ":"@ + port_of(n.line, n.character)
}

/// The highlight attribute of a cell, when it carries a mark.
pub open spec fn hl_attr(highlighted: bool) -> Seq<char> {
    if highlighted {
        " BGCOLOR=\"#4fe1f4\""@
    } else {
        Seq::empty()
    }
}

/// The row of one displayed symbol: with children, a nested sub-table; the
/// cell anchor carries the symbol-kind code as its navigation link, and the
/// title is HTML-escaped.
pub open spec fn dot_cell_text(tid: u32, c: CellView) -> Seq<char>
    decreases cell_height(c), 0int,
        via dot_cell_text_decreases
{
    if c.children.len() == 0 {
        "     <TR><TD PORT=\""@ + port_of(c.range_start.line, c.range_start.character)
            + "\" ID=\""@ + spec_dec(tid as int) + ":"@ + port_of(
            c.range_start.line,
            c.range_start.character,
        ) + "\""@ + hl_attr(c.highlighted) + " href=\""@ + spec_dec(c.kind.spec_code() as int)
            + "\">"@ + spec_escape_html(c.title) + "</TD></TR>\n"@
    } else {
        "            <TR><TD BORDER=\"0\" CELLPADDING=\"0\">\n            <TABLE ID=\""@
            + spec_dec(tid as int) + ":"@ + port_of(c.range_start.line, c.range_start.character)
            + "\" CELLSPACING=\"8\" CELLPADDING=\"4\" CELLBORDER=\"1\" BGCOLOR=\"#e8f5e8\" href=\""@
            + spec_dec(c.kind.spec_code() as int) + "\">\n"@ + "     <TR><TD PORT=\""@ + port_of(
            c.range_start.line,
            c.range_start.character,
        ) + "\" BORDER=\"0\""@ + hl_attr(c.highlighted) + ">"@ + spec_escape_html(c.title)
            + "</TD></TR>\n"@ + dot_cells_text(tid, c.children)
            + "            </TABLE>\n            </TD></TR>\n"@
    }
}

/// The rows of a cell list, in order.
pub open spec fn dot_cells_text(tid: u32, cs: Seq<CellView>) -> Seq<char>
    decreases cells_height(cs), cs.len(),
        via dot_cells_text_decreases
{
    if cs.len() == 0 {
        Seq::empty()
    } else {
        dot_cells_text(tid, cs.drop_last()) + dot_cell_text(tid, cs.last())
    }
}

#[via_fn]
proof fn dot_cell_text_decreases(tid: u32, c: CellView) {
}

#[via_fn]
proof fn dot_cells_text_decreases(tid: u32, cs: Seq<CellView>) {
    if cs.len() > 0 {
        lemma_cells_height_mem(cs, cs.len() - 1);
    }
}

/// One file's table block.
pub open spec fn dot_table_text(t: TableView) -> Seq<char> {
    "    \""@ + spec_dec(t.id as int) + "\" [id=\""@ + spec_dec(t.id as int) + "\", label=<\n"@
        + "        <TABLE BORDER=\"0\" CELLBORDER=\"1\" CELLSPACING=\"8\" CELLPADDING=\"4\">\n"@
        + "        <TR><TD WIDTH=\"230\" BORDER=\"0\" CELLPADDING=\"6\" HREF=\""@ + (match t.path {
        Option::Some(p) => p,
        Option::None => "remove_me_url.title"@,
    }) + "\">"@ + t.title + "</TD></TR>\n"@ + dot_cells_text(t.id, t.sections)
        + "        <TR><TD CELLSPACING=\"0\" HEIGHT=\"1\" WIDTH=\"1\" FIXEDSIZE=\"TRUE\" STYLE=\"invis\"></TD></TR>\n        </TABLE>\n    >];\n"@
}

/// The table blocks of all files, in order.
pub open spec fn dot_tables_text(ts: Seq<TableView>) -> Seq<char>
    decreases ts.len(),
{
    if ts.len() == 0 {
        Seq::empty()
    } else {
        dot_tables_text(ts.drop_last()) + dot_table_text(ts.last())
    }
}

/// One directed edge line, with its navigation anchors; an implementation
/// edge carries the `impl` class.
pub open spec fn dot_edge_text(e: Edge) -> Seq<char> {
    "    "@ + node_ref(e.from) + " -> "@ + node_ref(e.to) + " [id=\""@ + node_anchor(e.from)
        + " -> "@ + node_anchor(e.to) + "\", datafrom=\""@ + node_anchor(e.from) + "\", datato=\""@
        + node_anchor(e.to) + "\""@ + (if e.kind == EdgeKind::Impl {
        ", class=\"impl\""@
    } else {
        Seq::<char>::empty()
    }) + "];\n"@
}

/// The edge lines, in order.
pub open spec fn dot_edges_text(es: Seq<Edge>) -> Seq<char>
    decreases es.len(),
{
    if es.len() == 0 {
        Seq::empty()
    } else {
        dot_edges_text(es.drop_last()) + dot_edge_text(es.last())
    }
}

/// The member file ids of a cluster, separated by single spaces.
pub open spec fn join_space(ns: Seq<Seq<char>>) -> Seq<char>
    decreases ns.len(),
{
    if ns.len() == 0 {
        Seq::empty()
    } else if ns.len() == 1 {
        ns[0]
    } else {
        join_space(ns.drop_last()) + " "@ + ns.last()
    }
}

/// One cluster block: a named group wrapping its member file ids and its
/// nested clusters.
pub open spec fn dot_cluster_text(g: SubgraphView) -> Seq<char>
    decreases sg_height(g), 0int,
        via dot_cluster_text_decreases
{
    "        subgraph \"cluster_"@ + g.title + "\" {\n            label = \""@ + g.title
        + "\";\n            style = \"filled\";\n            fillcolor = \"#f8f9fa\";\n            color = \"#6c757d\";\n\n            "@
        + join_space(g.nodes) + "\n\n"@ + dot_clusters_text(g.subgraphs) + "        };\n"@
}

/// The cluster blocks of a cluster list, in order.
pub open spec fn dot_clusters_text(gs: Seq<SubgraphView>) -> Seq<char>
    decreases sg_forest_height(gs), gs.len(),
        via dot_clusters_text_decreases
{
    if gs.len() == 0 {
        Seq::empty()
    } else {
        dot_clusters_text(gs.drop_last()) + dot_cluster_text(gs.last())
    }
}

#[via_fn]
proof fn dot_cluster_text_decreases(g: SubgraphView) {
}

#[via_fn]
proof fn dot_clusters_text_decreases(gs: Seq<SubgraphView>) {
    if gs.len() > 0 {
        lemma_sg_forest_height_mem(gs, gs.len() - 1);
    }
}

/// The document head: graph, node and edge defaults.
pub open spec fn dot_head() -> Seq<char> {
    "digraph {\n    graph [\n        rankdir = \"LR\"\n        ranksep = 2.0\n        fontname = \"Arial\"\n        bgcolor = \"#f5fffa\"\n    ];\n    node [\n        fontsize = \"16\"\n        fontname = \"Arial\"\n        shape = \"plaintext\"\n        style = \"rounded, filled\"\n        fillcolor = \"#f4f5f1\"\n        color = \"#6c757d\"\n    ];\n    edge [\n        label = \" \"\n        color = \"#548f9e\"\n    ];\n\n"@
}

/// The whole DOT document: head, table blocks, cluster blocks, edge lines.
pub open spec fn spec_dot_source(
    tables: Seq<TableView>,
    edges: Seq<Edge>,
    subgraphs: Seq<SubgraphView>,
) -> Seq<char> {
    dot_head() + dot_tables_text(tables) + "\n"@ + dot_clusters_text(subgraphs) + "\n"@
        + dot_edges_text(edges) + "}\n"@
}

// ---------------------------------------------------------------------------
// Emission
// ---------------------------------------------------------------------------

fn push_port(out: &mut String, line: u32, character: u32)
    ensures
        final(out)@ == old(out)@ + port_of(line, character),
{
    push_u32_dec(out, line);
    out.append("_");
    push_u32_dec(out, character);
    proof {
        assert(final(out)@ =~= old(out)@ + port_of(line, character));
    }
}

fn push_node_ref(out: &mut String, n: NodeId)
    ensures
        final(out)@ == old(out)@ + node_ref(n),
{
    push_u32_dec(out, n.file_id);
    out.append(":\"");
    push_port(out, n.line, n.character);
    out.append("\"");
    proof {
        assert(final(out)@ =~= old(out)@ + node_ref(n));
    }
}

fn push_node_anchor(out: &mut String, n: NodeId)
    ensures
        final(out)@ == old(out)@ + node_anchor(n),
{
    push_u32_dec(out, n.file_id);
    out.append(":");
    push_port(out, n.line, n.character);
    proof {
        assert(final(out)@ =~= old(out)@ + node_anchor(n));
    }
}

fn push_escaped(out: &mut String, s: &str)
    ensures
        final(out)@ == old(out)@ + spec_escape_html(s@),
{
    let e = escape_html(s);
    out.append(e.as_str());
}

/// Emits the row of one cell, and of everything nested in it.
#[verifier::rlimit(100)]
fn push_dot_cell(tid: u32, c: &Cell, out: &mut String)
    ensures
        final(out)@ == old(out)@ + dot_cell_text(tid, cell_view(*c)),
    decreases cell_height(cell_view(*c)), 0int,
{
    broadcast use lemma_cells_view_index;

    let ghost cv = cell_view(*c);
    if c.children.len() == 0 {
        out.append("     <TR><TD PORT=\"");
        push_port(out, c.range_start.line, c.range_start.character);
        out.append("\" ID=\"");
        push_u32_dec(out, tid);
        out.append(":");
        push_port(out, c.range_start.line, c.range_start.character);
        out.append("\"");
        if c.highlighted {
            out.append(" BGCOLOR=\"#4fe1f4\"");
        }
        out.append(" href=\"");
        push_u32_dec(out, c.kind.code() as u32);
        out.append("\">");
        push_escaped(out, c.title.as_str());
        out.append("</TD></TR>\n");
        proof {
            assert(cv.children.len() == 0);
            assert(final(out)@ =~= old(out)@ + dot_cell_text(tid, cv));
        }
    } else {
        out.append("            <TR><TD BORDER=\"0\" CELLPADDING=\"0\">\n            <TABLE ID=\"");
        push_u32_dec(out, tid);
        out.append(":");
        push_port(out, c.range_start.line, c.range_start.character);
        out.append("\" CELLSPACING=\"8\" CELLPADDING=\"4\" CELLBORDER=\"1\" BGCOLOR=\"#e8f5e8\" href=\"");
        push_u32_dec(out, c.kind.code() as u32);
        out.append("\">\n");
        out.append("     <TR><TD PORT=\"");
        push_port(out, c.range_start.line, c.range_start.character);
        out.append("\" BORDER=\"0\"");
        if c.highlighted {
            out.append(" BGCOLOR=\"#4fe1f4\"");
        }
        out.append(">");
        push_escaped(out, c.title.as_str());
        out.append("</TD></TR>\n");
        let ghost mid = out@;
        proof {
            assert(mid =~= old(out)@
                + ("            <TR><TD BORDER=\"0\" CELLPADDING=\"0\">\n            <TABLE ID=\""@
                + spec_dec(tid as int) + ":"@ + port_of(cv.range_start.line, cv.range_start.character)
                + "\" CELLSPACING=\"8\" CELLPADDING=\"4\" CELLBORDER=\"1\" BGCOLOR=\"#e8f5e8\" href=\""@
                + spec_dec(cv.kind.spec_code() as int) + "\">\n"@ + "     <TR><TD PORT=\""@
                + port_of(cv.range_start.line, cv.range_start.character) + "\" BORDER=\"0\""@
                + hl_attr(cv.highlighted) + ">"@ + spec_escape_html(cv.title) + "</TD></TR>\n"@));
        }
        push_dot_cells(tid, &c.children, out);
        out.append("            </TABLE>\n            </TD></TR>\n");
        proof {
            assert(final(out)@ =~= old(out)@ + dot_cell_text(tid, cv));
        }
    }
}

/// Emits the rows of a cell list, in order.
fn push_dot_cells(tid: u32, cs: &Vec<Cell>, out: &mut String)
    ensures
        final(out)@ == old(out)@ + dot_cells_text(tid, cells_view(cs@)),
    decreases cells_height(cells_view(cs@)), cs@.len(), 1int,
{
    broadcast use lemma_cells_view_index;

    let ghost cv = cells_view(cs@);
    let mut i: usize = 0;
    proof {
        assert(cv.take(0) =~= Seq::<CellView>::empty());
        assert(out@ =~= old(out)@ + dot_cells_text(tid, cv.take(0)));
    }
    while i < cs.len()
        invariant
            i <= cs@.len(),
            cv == cells_view(cs@),
            cv.len() == cs@.len(),
            forall|j: int| 0 <= j < cs@.len() ==> cv[j] == cell_view(cs@[j]),
            out@ == old(out)@ + dot_cells_text(tid, cv.take(i as int)),
            cells_height(cv) == cells_height(cells_view(cs@)),
        decreases cs@.len() - i,
    {
        proof {
            lemma_cells_height_mem(cv, i as int);
        }
        push_dot_cell(tid, &cs[i], out);
        i = i + 1;
        proof {
            let t = cv.take(i as int);
            assert(t.drop_last() =~= cv.take(i - 1));
            assert(t.last() == cv[i - 1]);
            assert(out@ =~= old(out)@ + dot_cells_text(tid, cv.take(i as int)));
        }
    }
    proof {
        assert(cv.take(cs@.len() as int) =~= cv);
    }
}

/// Emits one file's table block.
fn push_dot_table(t: &TableNode, out: &mut String)
    ensures
        final(out)@ == old(out)@ + dot_table_text(table_view(*t)),
{
    out.append("    \"");
    push_u32_dec(out, t.id);
    out.append("\" [id=\"");
    push_u32_dec(out, t.id);
    out.append("\", label=<\n");
    out.append("        <TABLE BORDER=\"0\" CELLBORDER=\"1\" CELLSPACING=\"8\" CELLPADDING=\"4\">\n");
    out.append("        <TR><TD WIDTH=\"230\" BORDER=\"0\" CELLPADDING=\"6\" HREF=\"");
    match &t.path {
        Option::Some(p) => out.append(p.as_str()),
        Option::None => out.append("remove_me_url.title"),
    }
    out.append("\">");
    out.append(t.title.as_str());
    out.append("</TD></TR>\n");
    let ghost mid = out@;
    proof {
        let tv = table_view(*t);
        assert(mid =~= old(out)@ + ("    \""@ + spec_dec(tv.id as int) + "\" [id=\""@ + spec_dec(
            tv.id as int,
        ) + "\", label=<\n"@
            + "        <TABLE BORDER=\"0\" CELLBORDER=\"1\" CELLSPACING=\"8\" CELLPADDING=\"4\">\n"@
            + "        <TR><TD WIDTH=\"230\" BORDER=\"0\" CELLPADDING=\"6\" HREF=\""@ + (
        match tv.path {
            Option::Some(p) => p,
            Option::None => "remove_me_url.title"@,
        }) + "\">"@ + tv.title + "</TD></TR>\n"@));
    }
    push_dot_cells(t.id, &t.sections, out);
    out.append(
        "        <TR><TD CELLSPACING=\"0\" HEIGHT=\"1\" WIDTH=\"1\" FIXEDSIZE=\"TRUE\" STYLE=\"invis\"></TD></TR>\n        </TABLE>\n    >];\n",
    );
    proof {
        assert(final(out)@ =~= old(out)@ + dot_table_text(table_view(*t)));
    }
}

/// Emits one directed edge line.
fn push_dot_edge(e: Edge, out: &mut String)
    ensures
        final(out)@ == old(out)@ + dot_edge_text(e),
{
    out.append("    ");
    push_node_ref(out, e.from);
    out.append(" -> ");
    push_node_ref(out, e.to);
    out.append(" [id=\"");
    push_node_anchor(out, e.from);
    out.append(" -> ");
    push_node_anchor(out, e.to);
    out.append("\", datafrom=\"");
    push_node_anchor(out, e.from);
    out.append("\", datato=\"");
    push_node_anchor(out, e.to);
    out.append("\"");
    if matches!(e.kind, EdgeKind::Impl) {
        out.append(", class=\"impl\"");
    }
    out.append("];\n");
    proof {
        assert(final(out)@ =~= old(out)@ + dot_edge_text(e));
    }
}

/// Emits one cluster block, and its nested clusters.
fn push_dot_cluster(g: &Subgraph, out: &mut String)
    ensures
        final(out)@ == old(out)@ + dot_cluster_text(subgraph_view(*g)),
    decreases sg_height(subgraph_view(*g)), 0int,
{
    broadcast use lemma_subgraphs_view_index;

    let ghost gv = subgraph_view(*g);
    proof {
        assert(gv.nodes == crate::graph::strings_view(g.nodes@));
        assert(gv.subgraphs == subgraphs_view(g.subgraphs@));
        assert forall|j: int| 0 <= j < g.nodes@.len() implies gv.nodes[j] == g.nodes@[j]@ by {
        }
    }
    out.append("        subgraph \"cluster_");
    out.append(g.title.as_str());
    out.append("\" {\n            label = \"");
    out.append(g.title.as_str());
    out.append(
        "\";\n            style = \"filled\";\n            fillcolor = \"#f8f9fa\";\n            color = \"#6c757d\";\n\n            ",
    );
    let mut i: usize = 0;
    let ghost mid = out@;
    proof {
        assert(gv.nodes.take(0) =~= Seq::<Seq<char>>::empty());
        assert(out@ =~= mid + join_space(gv.nodes.take(0)));
    }
    while i < g.nodes.len()
        invariant
            i <= g.nodes@.len(),
            gv == subgraph_view(*g),
            gv.nodes.len() == g.nodes@.len(),
            forall|j: int| 0 <= j < g.nodes@.len() ==> gv.nodes[j] == g.nodes@[j]@,
            out@ == mid + join_space(gv.nodes.take(i as int)),
        decreases g.nodes@.len() - i,
    {
        if i > 0 {
            out.append(" ");
        }
        out.append(g.nodes[i].as_str());
        i = i + 1;
        proof {
            let t = gv.nodes.take(i as int);
            assert(t.drop_last() =~= gv.nodes.take(i - 1));
            assert(t.last() == gv.nodes[i - 1]);
            if i == 1 {
                assert(join_space(t) == t[0]);
                assert(t[0] == gv.nodes[0]);
            }
            assert(out@ =~= mid + join_space(gv.nodes.take(i as int)));
        }
    }
    proof {
        assert(gv.nodes.take(g.nodes@.len() as int) =~= gv.nodes);
    }
    out.append("\n\n");
    let ghost mid2 = out@;
    let mut k: usize = 0;
    proof {
        assert(gv.subgraphs.take(0) =~= Seq::<SubgraphView>::empty());
        assert(out@ =~= mid2 + dot_clusters_text(gv.subgraphs.take(0)));
    }
    while k < g.subgraphs.len()
        invariant
            k <= g.subgraphs@.len(),
            gv == subgraph_view(*g),
            gv.subgraphs.len() == g.subgraphs@.len(),
            forall|j: int| 0 <= j < g.subgraphs@.len() ==> gv.subgraphs[j] == subgraph_view(
                g.subgraphs@[j],
            ),
            out@ == mid2 + dot_clusters_text(gv.subgraphs.take(k as int)),
            sg_height(gv) == sg_height(subgraph_view(*g)),
        decreases g.subgraphs@.len() - k,
    {
        proof {
            lemma_sg_forest_height_mem(gv.subgraphs, k as int);
        }
        push_dot_cluster(&g.subgraphs[k], out);
        k = k + 1;
        proof {
            let t = gv.subgraphs.take(k as int);
            assert(t.drop_last() =~= gv.subgraphs.take(k - 1));
            assert(t.last() == gv.subgraphs[k - 1]);
            assert(out@ =~= mid2 + dot_clusters_text(gv.subgraphs.take(k as int)));
        }
    }
    proof {
        assert(gv.subgraphs.take(g.subgraphs@.len() as int) =~= gv.subgraphs);
    }
    out.append("        };\n");
    proof {
        assert(final(out)@ =~= old(out)@ + dot_cluster_text(gv));
    }
}

/// The DOT renderer.
pub struct Dot;

impl Dot {
    /// Serializes tables, edges and clusters into one DOT document.
    pub fn generate_dot_source(tables: &Vec<TableNode>, edges: &Vec<Edge>, subgraphs: &Vec<
        Subgraph,
    >) -> (r: String)
        ensures
            r@ == spec_dot_source(
                crate::generator::tables_vec_view(tables@),
                edges@,
                subgraphs_view(subgraphs@),
            ),
    {
        broadcast use lemma_subgraphs_view_index;

        let ghost tv = crate::generator::tables_vec_view(tables@);
        let ghost sv = subgraphs_view(subgraphs@);
        let mut out = String::new();
        out.append(
            "digraph {\n    graph [\n        rankdir = \"LR\"\n        ranksep = 2.0\n        fontname = \"Arial\"\n        bgcolor = \"#f5fffa\"\n    ];\n    node [\n        fontsize = \"16\"\n        fontname = \"Arial\"\n        shape = \"plaintext\"\n        style = \"rounded, filled\"\n        fillcolor = \"#f4f5f1\"\n        color = \"#6c757d\"\n    ];\n    edge [\n        label = \" \"\n        color = \"#548f9e\"\n    ];\n\n",
        );
        let ghost m0 = out@;
        proof {
            assert(m0 =~= dot_head());
            assert(tv.take(0) =~= Seq::<TableView>::empty());
            assert(out@ =~= m0 + dot_tables_text(tv.take(0)));
        }
        let mut i: usize = 0;
        while i < tables.len()
            invariant
                i <= tables@.len(),
                m0 == dot_head(),
                tv == crate::generator::tables_vec_view(tables@),
                tv.len() == tables@.len(),
                forall|j: int| 0 <= j < tables@.len() ==> tv[j] == table_view(tables@[j]),
                out@ == m0 + dot_tables_text(tv.take(i as int)),
            decreases tables@.len() - i,
        {
            push_dot_table(&tables[i], &mut out);
            i = i + 1;
            proof {
                let t = tv.take(i as int);
                assert(t.drop_last() =~= tv.take(i - 1));
                assert(t.last() == tv[i - 1]);
                assert(out@ =~= m0 + dot_tables_text(tv.take(i as int)));
            }
        }
        proof {
            assert(tv.take(tables@.len() as int) =~= tv);
        }
        out.append("\n");
        let ghost m1 = out@;
        proof {
            assert(sv.take(0) =~= Seq::<SubgraphView>::empty());
            assert(out@ =~= m1 + dot_clusters_text(sv.take(0)));
        }
        let mut k: usize = 0;
        while k < subgraphs.len()
            invariant
                k <= subgraphs@.len(),
                sv == subgraphs_view(subgraphs@),
                sv.len() == subgraphs@.len(),
                forall|j: int| 0 <= j < subgraphs@.len() ==> sv[j] == subgraph_view(subgraphs@[j]),
                out@ == m1 + dot_clusters_text(sv.take(k as int)),
            decreases subgraphs@.len() - k,
        {
            proof {
                lemma_sg_forest_height_mem(sv, k as int);
            }
            push_dot_cluster(&subgraphs[k], &mut out);
            k = k + 1;
            proof {
                let t = sv.take(k as int);
                assert(t.drop_last() =~= sv.take(k - 1));
                assert(t.last() == sv[k - 1]);
                assert(out@ =~= m1 + dot_clusters_text(sv.take(k as int)));
            }
        }
        proof {
            assert(sv.take(subgraphs@.len() as int) =~= sv);
        }
        out.append("\n");
        let ghost m2 = out@;
        proof {
            assert(edges@.take(0) =~= Seq::<Edge>::empty());
            assert(out@ =~= m2 + dot_edges_text(edges@.take(0)));
        }
        let mut e: usize = 0;
        while e < edges.len()
            invariant
                e <= edges@.len(),
                out@ == m2 + dot_edges_text(edges@.take(e as int)),
            decreases edges@.len() - e,
        {
            push_dot_edge(edges[e], &mut out);
            e = e + 1;
            proof {
                let t = edges@.take(e as int);
                assert(t.drop_last() =~= edges@.take(e - 1));
                assert(t.last() == edges@[e - 1]);
                assert(out@ =~= m2 + dot_edges_text(edges@.take(e as int)));
            }
        }
        proof {
            assert(edges@.take(edges@.len() as int) =~= edges@);
        }
        out.append("}\n");
        proof {
            assert(out@ =~= spec_dot_source(tv, edges@, sv));
        }
        out
    }
}

} // verus!
