//! The renderable graph entities: per-file tables of cells, directed edges
//! between displayed cells, and directory clusters; and the verified
//! construction of a file's table from its outline.

pub mod dot;

use vstd::prelude::*;

use crate::lang::{spec_keep_symbol, keep_symbol, Lang};
use crate::lsp_types::{
    forest_height, lemma_forest_height_mem, lemma_sibs_view_index, node_height, sibs_view,
    sym_view, DocumentSymbol, Position, SymNode, SymbolKind,
};
use crate::outline::{outline_view, FileOutline, OutlineView};
use crate::text::{file_name, spec_file_name};

verus! {

/// The identity of a displayed cell: file id, line, character.
#[derive(Debug, Clone, Copy, PartialEq, Eq, Structural)]
pub struct NodeId {
    pub file_id: u32,
    pub line: u32,
    pub character: u32,
}

/// The kind of an edge: a plain call, or an interface implementation.
#[derive(Debug, Clone, Copy, PartialEq, Eq, Structural)]
pub enum EdgeKind {
    Plain,
    Impl,
}

/// A directed edge between two displayed cells.  Its identity for
/// deduplication is the whole triple, kind included.
#[derive(Debug, Clone, Copy, PartialEq, Eq, Structural)]
pub struct Edge {
    pub from: NodeId,
    pub to: NodeId,
    pub kind: EdgeKind,
}

/// One cell of a file's table: a displayed symbol, with the nested cells of
/// its displayed children.
pub struct Cell {
    pub title: String,
    pub kind: SymbolKind,
    pub range_start: Position,
    pub highlighted: bool,
    pub children: Vec<Cell>,
}

/// The mathematical model of a cell.
pub struct CellView {
    pub title: Seq<char>,
    pub kind: SymbolKind,
    pub range_start: Position,
    pub highlighted: bool,
    pub children: Seq<CellView>,
}

/// The model of one cell.
pub open spec fn cell_view(c: Cell) -> CellView
    decreases c,
{
    CellView {
        title: c.title@,
        kind: c.kind,
        range_start: c.range_start,
        highlighted: c.highlighted,
        children: cells_view(c.children@),
    }
}

/// The model of a cell list, element by element.
pub open spec fn cells_view(cs: Seq<Cell>) -> Seq<CellView>
    decreases cs,
{
    if cs.len() == 0 {
        Seq::empty()
    } else {
        cells_view(cs.drop_last()).push(cell_view(cs.last()))
    }
}

/// Taking the model of a cell list commutes with length and indexing.
pub broadcast proof fn lemma_cells_view_index(cs: Seq<Cell>)
    ensures
        (#[trigger] cells_view(cs)).len() == cs.len(),
        forall|i: int| 0 <= i < cs.len() ==> cells_view(cs)[i] == cell_view(cs[i]),
    decreases cs,
{
    if cs.len() > 0 {
        lemma_cells_view_index(cs.drop_last());
        assert(forall|i: int| 0 <= i < cs.len() - 1 ==> cs.drop_last()[i] == cs[i]);
    }
}

/// One file's table: the file's id and title, a navigation path, and one
/// top-level cell per displayed top-level symbol.
pub struct TableNode {
    pub id: u32,
    pub title: String,
    pub path: Option<String>,
    pub sections: Vec<Cell>,
}

/// The mathematical model of a table.
pub struct TableView {
    pub id: u32,
    pub title: Seq<char>,
    pub path: Option<Seq<char>>,
    pub sections: Seq<CellView>,
}

/// The model of a table.
pub open spec fn table_view(t: TableNode) -> TableView {
    TableView {
        id: t.id,
        title: t.title@,
        path: match t.path {
            Option::None => Option::None,
            Option::Some(p) => Option::Some(p@),
        },
        sections: cells_view(t.sections@),
    }
}

/// A directory cluster: its root-relative title, the ids of the file tables
/// directly inside it, and its nested clusters.
pub struct Subgraph {
    pub title: String,
    pub nodes: Vec<String>,
    pub subgraphs: Vec<Subgraph>,
}

/// The mathematical model of a cluster.
pub struct SubgraphView {
    pub title: Seq<char>,
    pub nodes: Seq<Seq<char>>,
    pub subgraphs: Seq<SubgraphView>,
}

/// The models of a string list, element by element.
pub open spec fn strings_view(s: Seq<String>) -> Seq<Seq<char>> {
    s.map_values(|n: String| n@)
}

/// The model of one cluster.
pub open spec fn subgraph_view(g: Subgraph) -> SubgraphView
    decreases g,
{
    SubgraphView {
        title: g.title@,
        nodes: strings_view(g.nodes@),
        subgraphs: subgraphs_view(g.subgraphs@),
    }
}

/// The model of a cluster list, element by element.
pub open spec fn subgraphs_view(gs: Seq<Subgraph>) -> Seq<SubgraphView>
    decreases gs,
{
    if gs.len() == 0 {
        Seq::empty()
    } else {
        subgraphs_view(gs.drop_last()).push(subgraph_view(gs.last()))
    }
}

/// Taking the model of a cluster list commutes with length and indexing.
pub broadcast proof fn lemma_subgraphs_view_index(gs: Seq<Subgraph>)
    ensures
        (#[trigger] subgraphs_view(gs)).len() == gs.len(),
        forall|i: int| 0 <= i < gs.len() ==> subgraphs_view(gs)[i] == subgraph_view(gs[i]),
    decreases gs,
{
    if gs.len() > 0 {
        lemma_subgraphs_view_index(gs.drop_last());
        assert(forall|i: int| 0 <= i < gs.len() - 1 ==> gs.drop_last()[i] == gs[i]);
    }
}

/// The height of a cell: one more than the height of its children.
pub open spec fn cell_height(c: CellView) -> nat
    decreases c,
{
    1 + cells_height(c.children)
}

/// The height of a cell list: the greatest height of a member.
pub open spec fn cells_height(cs: Seq<CellView>) -> nat
    decreases cs,
{
    if cs.len() == 0 {
        0
    } else {
        let h = cell_height(cs.last());
        let rest = cells_height(cs.drop_last());
        if h > rest {
            h
        } else {
            rest
        }
    }
}

/// Every member of a cell list is bounded by the list's height.
pub proof fn lemma_cells_height_mem(cs: Seq<CellView>, i: int)
    requires
        0 <= i < cs.len(),
    ensures
        cell_height(cs[i]) <= cells_height(cs),
    decreases cs,
{
    if i < cs.len() - 1 {
        lemma_cells_height_mem(cs.drop_last(), i);
    }
}

/// The height of a cluster: one more than the height of its children.
pub open spec fn sg_height(g: SubgraphView) -> nat
    decreases g,
{
    1 + sg_forest_height(g.subgraphs)
}

/// The height of a cluster list: the greatest height of a member.
pub open spec fn sg_forest_height(gs: Seq<SubgraphView>) -> nat
    decreases gs,
{
    if gs.len() == 0 {
        0
    } else {
        let h = sg_height(gs.last());
        let rest = sg_forest_height(gs.drop_last());
        if h > rest {
            h
        } else {
            rest
        }
    }
}

/// Every member of a cluster list is bounded by the list's height.
pub proof fn lemma_sg_forest_height_mem(gs: Seq<SubgraphView>, i: int)
    requires
        0 <= i < gs.len(),
    ensures
        sg_height(gs[i]) <= sg_forest_height(gs),
    decreases gs,
{
    if i < gs.len() - 1 {
        lemma_sg_forest_height_mem(gs.drop_last(), i);
    }
}

// ---------------------------------------------------------------------------
// Table construction
// ---------------------------------------------------------------------------

/// The cell a displayed symbol becomes: its anchor is the start of the
/// symbol's selection range, and it is highlighted when that anchor is among
/// the file's marks.
pub open spec fn spec_cell_of(n: SymNode, lang: Lang, marks: Seq<Position>) -> CellView
    decreases node_height(n), 0int,
        via spec_cell_of_decreases
{
    CellView {
        title: n.name,
        kind: n.kind,
        range_start: n.selection_range.start,
        highlighted: marks.contains(n.selection_range.start),
        children: spec_cells_of(n.children, lang, marks),
    }
}

/// The cells of a displayed sibling list: symbols the strategy keeps, in
/// order, with their displayed children nested; a symbol that is filtered
/// out is dropped with its whole subtree.
pub open spec fn spec_cells_of(ns: Seq<SymNode>, lang: Lang, marks: Seq<Position>) -> Seq<CellView>
    decreases forest_height(ns), ns.len(),
        via spec_cells_of_decreases
{
    if ns.len() == 0 {
        Seq::empty()
    } else {
        spec_cells_of(ns.drop_last(), lang, marks) + if spec_keep_symbol(
            lang,
            ns.last().name,
            ns.last().kind,
        ) {
            seq![spec_cell_of(ns.last(), lang, marks)]
        } else {
            Seq::empty()
        }
    }
}

#[via_fn]
proof fn spec_cell_of_decreases(n: SymNode, lang: Lang, marks: Seq<Position>) {
}

#[via_fn]
proof fn spec_cells_of_decreases(ns: Seq<SymNode>, lang: Lang, marks: Seq<Position>) {
    if ns.len() > 0 {
        lemma_forest_height_drop_last(ns);
        lemma_forest_height_mem(ns, ns.len() - 1);
    }
}

/// Dropping the last member cannot raise a sibling list's height.
pub proof fn lemma_forest_height_drop_last(ns: Seq<SymNode>)
    requires
        ns.len() > 0,
    ensures
        forest_height(ns.drop_last()) <= forest_height(ns),
{
}

/// Decides whether `marks` holds `p`.
pub fn marks_contain(marks: &Vec<Position>, p: Position) -> (r: bool)
    ensures
        r == marks@.contains(p),
{
    let mut i: usize = 0;
    while i < marks.len()
        invariant
            i <= marks@.len(),
            forall|j: int| 0 <= j < i ==> marks@[j] != p,
        decreases marks@.len() - i,
    {
        if marks[i].line == p.line && marks[i].character == p.character {
            proof {
                assert(marks@[i as int] == p);
            }
            return true;
        }
        i = i + 1;
    }
    false
}

/// Builds the cell of one kept symbol.
fn build_cell(s: &DocumentSymbol, lang: Lang, marks: &Vec<Position>) -> (c: Cell)
    ensures
        cell_view(c) == spec_cell_of(sym_view(*s), lang, marks@),
    decreases node_height(sym_view(*s)), 0int,
{
    let children = build_cells(&s.children, lang, marks);
    let c = Cell {
        title: s.name.clone(),
        kind: s.kind,
        range_start: s.selection_range.start,
        highlighted: marks_contain(marks, s.selection_range.start),
        children,
    };
    proof {
        assert(cell_view(c) == spec_cell_of(sym_view(*s), lang, marks@));
    }
    c
}

/// Builds the cells of a sibling list, keeping what the strategy keeps.
fn build_cells(ss: &Vec<DocumentSymbol>, lang: Lang, marks: &Vec<Position>) -> (cs: Vec<Cell>)
    ensures
        cells_view(cs@) == spec_cells_of(sibs_view(ss@), lang, marks@),
    decreases forest_height(sibs_view(ss@)), ss@.len(),
{
    broadcast use lemma_sibs_view_index, lemma_cells_view_index;

    let ghost ns = sibs_view(ss@);
    let mut out: Vec<Cell> = Vec::new();
    let mut i: usize = 0;
    proof {
        assert(ns.take(0) =~= Seq::<SymNode>::empty());
        assert(cells_view(out@) =~= spec_cells_of(ns.take(0), lang, marks@));
    }
    while i < ss.len()
        invariant
            i <= ss@.len(),
            ns == sibs_view(ss@),
            ns.len() == ss@.len(),
            forall|j: int| 0 <= j < ss@.len() ==> ns[j] == sym_view(ss@[j]),
            cells_view(out@) == spec_cells_of(ns.take(i as int), lang, marks@),
            forest_height(ns) == forest_height(sibs_view(ss@)),
        decreases ss@.len() - i,
    {
        let ghost prev_out = out@;
        let keep = keep_symbol(lang, ss[i].name.as_str(), ss[i].kind);
        if keep {
            proof {
                lemma_forest_height_mem(ns, i as int);
            }
            let c = build_cell(&ss[i], lang, marks);
            out.push(c);
            proof {
                assert(out@.drop_last() =~= prev_out);
                assert(cells_view(out@) == cells_view(prev_out).push(cell_view(out@.last())));
            }
        }
        i = i + 1;
        proof {
            let t = ns.take(i as int);
            assert(t.drop_last() =~= ns.take(i - 1));
            assert(t.last() == ns[i - 1]);
            assert(spec_cells_of(t, lang, marks@) == spec_cells_of(ns.take(i - 1), lang, marks@)
                + if spec_keep_symbol(lang, ns[i - 1].name, ns[i - 1].kind) {
                seq![spec_cell_of(ns[i - 1], lang, marks@)]
            } else {
                Seq::<CellView>::empty()
            });
            assert(cells_view(out@) =~= spec_cells_of(ns.take(i as int), lang, marks@));
        }
    }
    proof {
        assert(ns.take(ss@.len() as int) =~= ns);
    }
    out
}

/// The table a stored file renders to, under a strategy and a mark list.
pub open spec fn spec_table_of(f: OutlineView, lang: Lang, marks: Seq<Position>) -> TableView {
    TableView {
        id: f.id,
        title: spec_file_name(f.path),
        path: Option::Some(f.path),
        sections: spec_cells_of(f.symbols, lang, marks),
    }
}

/// Builds the table of one stored file: one row per kept top-level symbol,
/// nested sub-tables for kept children, highlight marks applied.
pub fn build_table(f: &FileOutline, lang: Lang, marks: &Vec<Position>) -> (t: TableNode)
    ensures
        table_view(t) == spec_table_of(outline_view(*f), lang, marks@),
{
    let sections = build_cells(&f.symbols, lang, marks);
    TableNode { id: f.id, title: file_name(f.path.as_str()), path: Option::Some(f.path.clone()), sections }
}

// ---------------------------------------------------------------------------
// Displayed cell identities
// ---------------------------------------------------------------------------

/// The identities of one cell and everything nested in it.
pub open spec fn spec_cell_ids(fid: u32, c: CellView) -> Set<NodeId>
    decreases c,
{
    spec_cells_ids(fid, c.children).insert(
        NodeId { file_id: fid, line: c.range_start.line, character: c.range_start.character },
    )
}

/// The identities of every cell of a cell list.
pub open spec fn spec_cells_ids(fid: u32, cs: Seq<CellView>) -> Set<NodeId>
    decreases cs,
{
    if cs.len() == 0 {
        Set::empty()
    } else {
        spec_cells_ids(fid, cs.drop_last()).union(spec_cell_ids(fid, cs.last()))
    }
}

/// Collects into `ids` the identity of every cell in `cell`'s subtree.
pub fn collect_cell_ids(table_id: u32, cell: &Cell, ids: &mut Vec<NodeId>)
    ensures
        forall|x: NodeId| #[trigger]
            final(ids)@.contains(x) <==> old(ids)@.contains(x) || spec_cell_ids(
                table_id,
                cell_view(*cell),
            ).contains(x),
    decreases cell,
{
    broadcast use lemma_cells_view_index;

    let ghost cv = cell_view(*cell);
    let ghost nd = NodeId {
        file_id: table_id,
        line: cell.range_start.line,
        character: cell.range_start.character,
    };
    ids.push(
        NodeId {
            file_id: table_id,
            line: cell.range_start.line,
            character: cell.range_start.character,
        },
    );
    proof {
        assert(cv.children == cells_view(cell.children@));
        assert(cv.children.take(0) =~= Seq::<CellView>::empty());
        assert forall|x: NodeId| #[trigger] ids@.contains(x) implies old(ids)@.contains(x) || x
            == nd by {
            let j = choose|j: int| 0 <= j < ids@.len() && ids@[j] == x;
            if j < ids@.len() - 1 {
                assert(old(ids)@[j] == x);
            }
        }
        assert forall|x: NodeId| old(ids)@.contains(x) || x == nd implies #[trigger] ids@.contains(
            x,
        ) by {
            if old(ids)@.contains(x) {
                let j = choose|j: int| 0 <= j < old(ids)@.len() && old(ids)@[j] == x;
                assert(ids@[j] == x);
            } else {
                assert(ids@[ids@.len() - 1] == x);
            }
        }
    }
    let mut i: usize = 0;
    while i < cell.children.len()
        invariant
            i <= cell.children@.len(),
            cv == cell_view(*cell),
            nd == (NodeId {
                file_id: table_id,
                line: cv.range_start.line,
                character: cv.range_start.character,
            }),
            cv.children.len() == cell.children@.len(),
            forall|j: int| 0 <= j < cell.children@.len() ==> cv.children[j] == cell_view(
                cell.children@[j],
            ),
            forall|x: NodeId| #[trigger]
                ids@.contains(x) <==> old(ids)@.contains(x) || spec_cells_ids(
                    table_id,
                    cv.children.take(i as int),
                ).insert(nd).contains(x),
        decreases cell.children@.len() - i,
    {
        let ghost mid = ids@;
        collect_cell_ids(table_id, &cell.children[i], ids);
        i = i + 1;
        proof {
            let t = cv.children.take(i as int);
            assert(t.drop_last() =~= cv.children.take(i - 1));
            assert(t.last() == cv.children[i - 1]);
            assert(spec_cells_ids(table_id, t) == spec_cells_ids(
                table_id,
                cv.children.take(i - 1),
            ).union(spec_cell_ids(table_id, cv.children[i - 1])));
        }
    }
    proof {
        assert(cv.children.take(cell.children@.len() as int) =~= cv.children);
        assert(spec_cell_ids(table_id, cv) == spec_cells_ids(table_id, cv.children).insert(nd));
    }
}

/// Decides whether `ids` holds `x`.
pub fn ids_contain(ids: &Vec<NodeId>, x: NodeId) -> (r: bool)
    ensures
        r == ids@.contains(x),
{
    let mut i: usize = 0;
    while i < ids.len()
        invariant
            i <= ids@.len(),
            forall|j: int| 0 <= j < i ==> ids@[j] != x,
        decreases ids@.len() - i,
    {
        let c = ids[i];
        if c.file_id == x.file_id && c.line == x.line && c.character == x.character {
            proof {
                assert(ids@[i as int] == x);
            }
            return true;
        }
        i = i + 1;
    }
    false
}

} // verus!
