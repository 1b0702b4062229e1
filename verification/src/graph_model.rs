//! The structured graph view: a plain data representation of the same files
//! and relations, with substring and kind-based search.  This view reflects
//! outlines as currently stored; it never repairs them.

use vstd::prelude::*;

use crate::lsp_types;
use crate::lsp_types::{sibs_view, sym_view, SymNode};
use crate::text::{lower_of, spec_contains_sub, str_contains, to_lowercase};

verus! {

/// A (line, character) position of the structured view.
#[derive(Debug, Clone, Copy, PartialEq, Eq, Structural)]
pub struct Position {
    pub line: u32,
    pub character: u32,
}

impl From<lsp_types::Position> for Position {
    /// The same coordinates, repackaged.
    fn from(pos: lsp_types::Position) -> (r: Position) {
        Position { line: pos.line, character: pos.character }
    }
}

impl vstd::std_specs::convert::FromSpecImpl<lsp_types::Position> for Position {
    open spec fn obeys_from_spec() -> bool {
        true
    }

    open spec fn from_spec(pos: lsp_types::Position) -> Position {
        Position { line: pos.line, character: pos.character }
    }
}

/// A span of the structured view.
#[derive(Debug, Clone, Copy, PartialEq, Eq, Structural)]
pub struct Range {
    pub start: Position,
    pub end: Position,
}

/// The span a provider range becomes.
pub open spec fn range_of(r: lsp_types::Range) -> Range {
    Range {
        start: Position { line: r.start.line, character: r.start.character },
        end: Position { line: r.end.line, character: r.end.character },
    }
}

impl From<lsp_types::Range> for Range {
    /// The same span, repackaged.
    fn from(range: lsp_types::Range) -> (r: Range) {
        Range {
            start: Position { line: range.start.line, character: range.start.character },
            end: Position { line: range.end.line, character: range.end.character },
        }
    }
}

impl vstd::std_specs::convert::FromSpecImpl<lsp_types::Range> for Range {
    open spec fn obeys_from_spec() -> bool {
        true
    }

    open spec fn from_spec(range: lsp_types::Range) -> Range {
        range_of(range)
    }
}

/// The symbol classification of the structured view.
#[derive(Debug, Clone, Copy, PartialEq, Eq, Structural)]
pub enum SymbolKind {
    File,
    Module,
    Namespace,
    Package,
    Class,
    Method,
    Property,
    Field,
    Constructor,
    Enum,
    Interface,
    Function,
    Variable,
    Constant,
    String,
    Number,
    Boolean,
    Array,
    Object,
    Key,
    Null,
    EnumMember,
    Struct,
    Event,
    Operator,
    TypeParameter,
}

/// The classification a provider kind becomes.
pub open spec fn kind_of(kind: lsp_types::SymbolKind) -> SymbolKind {
    match kind {
        lsp_types::SymbolKind::File => SymbolKind::File,
        lsp_types::SymbolKind::Module => SymbolKind::Module,
        lsp_types::SymbolKind::Namespace => SymbolKind::Namespace,
        lsp_types::SymbolKind::Package => SymbolKind::Package,
        lsp_types::SymbolKind::Class => SymbolKind::Class,
        lsp_types::SymbolKind::Method => SymbolKind::Method,
        lsp_types::SymbolKind::Property => SymbolKind::Property,
        lsp_types::SymbolKind::Field => SymbolKind::Field,
        lsp_types::SymbolKind::Constructor => SymbolKind::Constructor,
        lsp_types::SymbolKind::Enum => SymbolKind::Enum,
        lsp_types::SymbolKind::Interface => SymbolKind::Interface,
        lsp_types::SymbolKind::Function => SymbolKind::Function,
        lsp_types::SymbolKind::Variable => SymbolKind::Variable,
        lsp_types::SymbolKind::Constant => SymbolKind::Constant,
        lsp_types::SymbolKind::String => SymbolKind::String,
        lsp_types::SymbolKind::Number => SymbolKind::Number,
        lsp_types::SymbolKind::Boolean => SymbolKind::Boolean,
        lsp_types::SymbolKind::Array => SymbolKind::Array,
        lsp_types::SymbolKind::Object => SymbolKind::Object,
        lsp_types::SymbolKind::Key => SymbolKind::Key,
        lsp_types::SymbolKind::Null => SymbolKind::Null,
        lsp_types::SymbolKind::EnumMember => SymbolKind::EnumMember,
        lsp_types::SymbolKind::Struct => SymbolKind::Struct,
        lsp_types::SymbolKind::Event => SymbolKind::Event,
        lsp_types::SymbolKind::Operator => SymbolKind::Operator,
        lsp_types::SymbolKind::TypeParameter => SymbolKind::TypeParameter,
    }
}

impl From<lsp_types::SymbolKind> for SymbolKind {
    /// The same classification, repackaged.
    fn from(kind: lsp_types::SymbolKind) -> (r: SymbolKind) {
        match kind {
            lsp_types::SymbolKind::File => SymbolKind::File,
            lsp_types::SymbolKind::Module => SymbolKind::Module,
            lsp_types::SymbolKind::Namespace => SymbolKind::Namespace,
            lsp_types::SymbolKind::Package => SymbolKind::Package,
            lsp_types::SymbolKind::Class => SymbolKind::Class,
            lsp_types::SymbolKind::Method => SymbolKind::Method,
            lsp_types::SymbolKind::Property => SymbolKind::Property,
            lsp_types::SymbolKind::Field => SymbolKind::Field,
            lsp_types::SymbolKind::Constructor => SymbolKind::Constructor,
            lsp_types::SymbolKind::Enum => SymbolKind::Enum,
            lsp_types::SymbolKind::Interface => SymbolKind::Interface,
            lsp_types::SymbolKind::Function => SymbolKind::Function,
            lsp_types::SymbolKind::Variable => SymbolKind::Variable,
            lsp_types::SymbolKind::Constant => SymbolKind::Constant,
            lsp_types::SymbolKind::String => SymbolKind::String,
            lsp_types::SymbolKind::Number => SymbolKind::Number,
            lsp_types::SymbolKind::Boolean => SymbolKind::Boolean,
            lsp_types::SymbolKind::Array => SymbolKind::Array,
            lsp_types::SymbolKind::Object => SymbolKind::Object,
            lsp_types::SymbolKind::Key => SymbolKind::Key,
            lsp_types::SymbolKind::Null => SymbolKind::Null,
            lsp_types::SymbolKind::EnumMember => SymbolKind::EnumMember,
            lsp_types::SymbolKind::Struct => SymbolKind::Struct,
            lsp_types::SymbolKind::Event => SymbolKind::Event,
            lsp_types::SymbolKind::Operator => SymbolKind::Operator,
            lsp_types::SymbolKind::TypeParameter => SymbolKind::TypeParameter,
        }
    }
}

impl vstd::std_specs::convert::FromSpecImpl<lsp_types::SymbolKind> for SymbolKind {
    open spec fn obeys_from_spec() -> bool {
        true
    }

    open spec fn from_spec(kind: lsp_types::SymbolKind) -> SymbolKind {
        kind_of(kind)
    }
}

/// The cross-file-unique key of a symbol: its file id and the start of its
/// selection range.
#[derive(Debug, Clone, Copy, Hash, PartialEq, Eq, Structural)]
pub struct GlobalPosition {
    pub file_id: u32,
    pub line: u32,
    pub character: u32,
}

impl GlobalPosition {
    /// The key of the symbol at `position` in file `file_id`.
    pub fn new(file_id: u32, position: lsp_types::Position) -> (r: GlobalPosition)
        ensures
            r == (GlobalPosition {
                file_id,
                line: position.line,
                character: position.character,
            }),
    {
        GlobalPosition { file_id, line: position.line, character: position.character }
    }

    /// The key taken from the start of a range.
    pub fn from_range_start(file_id: u32, range: &lsp_types::Range) -> (r: GlobalPosition)
        ensures
            r == (GlobalPosition {
                file_id,
                line: range.start.line,
                character: range.start.character,
            }),
    {
        GlobalPosition { file_id, line: range.start.line, character: range.start.character }
    }
}

/// A symbol of the structured view.
pub struct Symbol {
    pub name: String,
    pub kind: SymbolKind,
    pub range: Range,
    pub children: Vec<Symbol>,
    pub global_position: GlobalPosition,
}

/// The mathematical model of a structured-view symbol.
pub struct GSym {
    pub name: Seq<char>,
    pub kind: SymbolKind,
    pub range: Range,
    pub children: Seq<GSym>,
    pub global_position: GlobalPosition,
}

/// The model of one structured-view symbol.
pub open spec fn gsym_view(s: Symbol) -> GSym
    decreases s,
{
    GSym {
        name: s.name@,
        kind: s.kind,
        range: s.range,
        children: gsyms_view(s.children@),
        global_position: s.global_position,
    }
}

/// The model of a structured-view symbol list.
pub open spec fn gsyms_view(ss: Seq<Symbol>) -> Seq<GSym>
    decreases ss,
{
    if ss.len() == 0 {
        Seq::empty()
    } else {
        gsyms_view(ss.drop_last()).push(gsym_view(ss.last()))
    }
}

/// Taking the model of a symbol list commutes with length and indexing.
pub broadcast proof fn lemma_gsyms_view_index(ss: Seq<Symbol>)
    ensures
        (#[trigger] gsyms_view(ss)).len() == ss.len(),
        forall|i: int| 0 <= i < ss.len() ==> gsyms_view(ss)[i] == gsym_view(ss[i]),
    decreases ss,
{
    if ss.len() > 0 {
        lemma_gsyms_view_index(ss.drop_last());
        assert(forall|i: int| 0 <= i < ss.len() - 1 ==> ss.drop_last()[i] == ss[i]);
    }
}

/// The structured-view symbol an outline node becomes, keyed by its file id
/// and the start of its selection range.
pub open spec fn conv_node(file_id: u32, n: SymNode) -> GSym
    decreases crate::lsp_types::node_height(n), 0int,
        via conv_node_decreases
{
    GSym {
        name: n.name,
        kind: kind_of(n.kind),
        range: range_of(n.range),
        children: conv_nodes(file_id, n.children),
        global_position: GlobalPosition {
            file_id,
            line: n.selection_range.start.line,
            character: n.selection_range.start.character,
        },
    }
}

/// The structured-view symbols an outline's sibling list becomes.
pub open spec fn conv_nodes(file_id: u32, ns: Seq<SymNode>) -> Seq<GSym>
    decreases crate::lsp_types::forest_height(ns), ns.len(),
        via conv_nodes_decreases
{
    if ns.len() == 0 {
        Seq::empty()
    } else {
        conv_nodes(file_id, ns.drop_last()).push(conv_node(file_id, ns.last()))
    }
}

#[via_fn]
proof fn conv_node_decreases(file_id: u32, n: SymNode) {
}

#[via_fn]
proof fn conv_nodes_decreases(file_id: u32, ns: Seq<SymNode>) {
    if ns.len() > 0 {
        crate::lsp_types::lemma_forest_height_mem(ns, ns.len() - 1);
    }
}

/// A file of the structured view.
pub struct File {
    pub id: u32,
    pub path: String,
    pub symbols: Vec<Symbol>,
}

/// The mathematical model of a structured-view file.
pub struct GFile {
    pub id: u32,
    pub path: Seq<char>,
    pub symbols: Seq<GSym>,
}

/// The model of one structured-view file.
pub open spec fn gfile_view(f: File) -> GFile {
    GFile { id: f.id, path: f.path@, symbols: gsyms_view(f.symbols@) }
}

/// The models of a file list.
pub open spec fn gfiles_view(fs: Seq<File>) -> Seq<GFile> {
    fs.map_values(|f: File| gfile_view(f))
}

/// The tag of a relation of the structured view.
#[derive(Debug, Clone, Copy, PartialEq, Eq, Structural)]
pub enum RelationKind {
    Call,
    Impl,
    Inherit,
}

/// A relation of the structured view.  Two relations count as the same when
/// they join the same two keys, whatever their tags.
#[derive(Debug, Clone, Copy)]
pub struct Relation {
    pub from: GlobalPosition,
    pub to: GlobalPosition,
    pub kind: RelationKind,
}

impl PartialEq for Relation {
    fn eq(&self, other: &Relation) -> (r: bool) {
        self.from == other.from && self.to == other.to
    }
}

impl vstd::std_specs::cmp::PartialEqSpecImpl for Relation {
    open spec fn obeys_eq_spec() -> bool {
        true
    }

    open spec fn eq_spec(&self, other: &Relation) -> bool {
        self.from == other.from && self.to == other.to
    }
}

impl Eq for Relation {

}

/// Whether some relation with these endpoints is already recorded.
pub open spec fn rel_mem(rels: Seq<Relation>, from: GlobalPosition, to: GlobalPosition) -> bool {
    exists|i: int| 0 <= i < rels.len() && (#[trigger] rels[i]).from == from && rels[i].to == to
}

/// The structured graph: files and relations.
pub struct Graph {
    pub files: Vec<File>,
    pub relations: Vec<Relation>,
}

/// Builds a structured graph incrementally: files under dense one-based
/// ids, relations deduplicated by their endpoints.
pub struct GraphBuilder {
    pub files: Vec<File>,
    pub relations: Vec<Relation>,
}

impl GraphBuilder {
    /// An empty builder.
    pub fn new() -> (r: GraphBuilder)
        ensures
            r.files@ =~= Seq::<File>::empty(),
            r.relations@ =~= Seq::<Relation>::empty(),
    {
        GraphBuilder { files: Vec::new(), relations: Vec::new() }
    }

    /// Adds one file under the next sequential id and converts its outline;
    /// returns the id.  Nothing checks for duplicates: every call stores a
    /// new file, and the path resolves to this newest id from now on.
    pub fn add_file(&mut self, path: String, symbols: Vec<lsp_types::DocumentSymbol>) -> (id: u32)
        requires
            old(self).files@.len() + 1 < u32::MAX,
        ensures
            id == old(self).files@.len() + 1,
            final(self).relations@ == old(self).relations@,
            gfiles_view(final(self).files@) =~= gfiles_view(old(self).files@).push(
                GFile {
                    id,
                    path: path@,
                    symbols: conv_nodes(id, sibs_view(symbols@)),
                },
            ),
            spec_file_id(gfiles_view(final(self).files@), path@) == Option::Some(id),
    {
        let file_id = self.files.len() as u32 + 1;
        let graph_symbols = convert_symbols(file_id, &symbols);
        let file = File { id: file_id, path, symbols: graph_symbols };
        self.files.push(file);
        proof {
            assert(gfiles_view(self.files@) =~= gfiles_view(old(self).files@).push(
                gfile_view(self.files@.last()),
            ));
            assert(gfiles_view(self.files@).last() == gfile_view(self.files@.last()));
            assert(spec_file_id(gfiles_view(self.files@), self.files@.last().path@)
                == Option::Some(file_id));
        }
        file_id
    }

    /// Records a relation unless one with the same endpoints is already
    /// there; an earlier relation's tag wins.
    pub fn add_relation(&mut self, from: GlobalPosition, to: GlobalPosition, kind: RelationKind)
        ensures
            final(self).files@ == old(self).files@,
            final(self).relations@ == if rel_mem(old(self).relations@, from, to) {
                old(self).relations@
            } else {
                old(self).relations@.push(Relation { from, to, kind })
            },
    {
        let relation = Relation { from, to, kind };
        let mut i: usize = 0;
        while i < self.relations.len()
            invariant
                *self == *old(self),
                i <= self.relations@.len(),
                forall|j: int|
                    0 <= j < i ==> !((#[trigger] self.relations@[j]).from == from
                        && self.relations@[j].to == to),
            decreases self.relations@.len() - i,
        {
            let c = self.relations[i];
            let hit = c.from == from && c.to == to;
            if hit {
                proof {
                    assert(self.relations@[i as int].from == from && self.relations@[i as int].to
                        == to);
                }
                return ;
            }
            i = i + 1;
        }
        proof {
            assert(!rel_mem(self.relations@, from, to));
        }
        self.relations.push(relation);
    }

    /// Hands the collected graph over.
    pub fn build(self) -> (g: Graph)
        ensures
            g.files@ == self.files@,
            g.relations@ == self.relations@,
    {
        Graph { files: self.files, relations: self.relations }
    }

    /// The id of the file most recently stored under `path`, if any: a
    /// later file under the same path shadows an earlier one.
    pub fn get_file_id(&self, path: &str) -> (r: Option<u32>)
        ensures
            r == spec_file_id(gfiles_view(self.files@), path@),
    {
        let ghost fv = gfiles_view(self.files@);
        proof {
            lemma_file_id(fv, path@);
        }
        let mut i: usize = self.files.len();
        while i > 0
            invariant
                i <= self.files@.len(),
                fv == gfiles_view(self.files@),
                forall|j: int| i <= j < fv.len() ==> (#[trigger] fv[j]).path != path@,
            decreases i,
        {
            let hit = crate::text::str_eq_str(self.files[i - 1].path.as_str(), path);
            if hit {
                proof {
                    assert(fv[i - 1].path == path@);
                    lemma_file_id_last(fv, path@, i - 1);
                }
                return Option::Some(self.files[i - 1].id);
            }
            i = i - 1;
        }
        Option::None
    }
}

impl Default for GraphBuilder {
    /// The empty builder.
    fn default() -> (r: GraphBuilder)
        ensures
            r.files@ =~= Seq::<File>::empty(),
            r.relations@ =~= Seq::<Relation>::empty(),
    {
        GraphBuilder::new()
    }
}

/// The id of the file most recently stored under `path`, if any: a later
/// file under the same path shadows an earlier one.
pub open spec fn spec_file_id(files: Seq<GFile>, path: Seq<char>) -> Option<u32>
    decreases files.len(),
{
    if files.len() == 0 {
        Option::None
    } else if files.last().path == path {
        Option::Some(files.last().id)
    } else {
        spec_file_id(files.drop_last(), path)
    }
}

proof fn lemma_file_id(files: Seq<GFile>, path: Seq<char>)
    ensures
        (spec_file_id(files, path) is None) <==> forall|j: int|
            0 <= j < files.len() ==> (#[trigger] files[j]).path != path,
    decreases files.len(),
{
    if files.len() > 0 && files.last().path != path {
        lemma_file_id(files.drop_last(), path);
        if spec_file_id(files.drop_last(), path) is None {
            assert forall|j: int| 0 <= j < files.len() implies (#[trigger] files[j]).path
                != path by {
                if j < files.len() - 1 {
                    assert(files.drop_last()[j] == files[j]);
                    assert(files.drop_last()[j].path != path);
                }
            }
        } else {
            let j = choose|j: int|
                0 <= j < files.drop_last().len() && (#[trigger] files.drop_last()[j]).path
                    == path;
            assert(files[j] == files.drop_last()[j]);
            assert(files[j].path == path);
        }
    }
}

proof fn lemma_file_id_last(files: Seq<GFile>, path: Seq<char>, i: int)
    requires
        0 <= i < files.len(),
        files[i].path == path,
        forall|j: int| i < j < files.len() ==> (#[trigger] files[j]).path != path,
    ensures
        spec_file_id(files, path) == Option::Some(files[i].id),
    decreases files.len(),
{
    if i == files.len() - 1 {
    } else {
        assert(files.last().path != path);
        assert(files.drop_last()[i] == files[i]);
        assert forall|j: int| i < j < files.len() - 1 implies (#[trigger] files.drop_last()[
            j
        ]).path != path by {
            assert(files.drop_last()[j] == files[j]);
        }
        lemma_file_id_last(files.drop_last(), path, i);
    }
}

/// Converts an outline sibling list for file `file_id`.
fn convert_symbols(file_id: u32, symbols: &Vec<lsp_types::DocumentSymbol>) -> (r: Vec<Symbol>)
    ensures
        gsyms_view(r@) == conv_nodes(file_id, sibs_view(symbols@)),
    decreases crate::lsp_types::forest_height(sibs_view(symbols@)), symbols@.len(),
{
    broadcast use crate::lsp_types::lemma_sibs_view_index, lemma_gsyms_view_index;

    let ghost ns = sibs_view(symbols@);
    let mut out: Vec<Symbol> = Vec::new();
    let mut i: usize = 0;
    proof {
        assert(ns.take(0) =~= Seq::<SymNode>::empty());
        assert(gsyms_view(out@) =~= conv_nodes(file_id, ns.take(0)));
    }
    while i < symbols.len()
        invariant
            i <= symbols@.len(),
            ns == sibs_view(symbols@),
            ns.len() == symbols@.len(),
            forall|j: int| 0 <= j < symbols@.len() ==> ns[j] == sym_view(symbols@[j]),
            gsyms_view(out@) == conv_nodes(file_id, ns.take(i as int)),
            crate::lsp_types::forest_height(ns) == crate::lsp_types::forest_height(
                sibs_view(symbols@),
            ),
        decreases symbols@.len() - i,
    {
        proof {
            crate::lsp_types::lemma_forest_height_mem(ns, i as int);
        }
        let ghost pre = out@;
        let c = convert_symbol(file_id, &symbols[i]);
        out.push(c);
        i = i + 1;
        proof {
            assert(out@.drop_last() =~= pre);
            assert(gsyms_view(out@) == gsyms_view(pre).push(gsym_view(out@.last())));
            let t = ns.take(i as int);
            assert(t.drop_last() =~= ns.take(i - 1));
            assert(t.last() == ns[i - 1]);
            assert(gsyms_view(out@) =~= conv_nodes(file_id, ns.take(i as int)));
        }
    }
    proof {
        assert(ns.take(symbols@.len() as int) =~= ns);
    }
    out
}

/// Converts one outline node for file `file_id`.
fn convert_symbol(file_id: u32, symbol: &lsp_types::DocumentSymbol) -> (r: Symbol)
    ensures
        gsym_view(r) == conv_node(file_id, sym_view(*symbol)),
    decreases crate::lsp_types::node_height(sym_view(*symbol)), 0int,
{
    let children = convert_symbols(file_id, &symbol.children);
    let r = Symbol {
        name: symbol.name.clone(),
        kind: SymbolKind::from(symbol.kind),
        range: Range::from(symbol.range),
        children,
        global_position: GlobalPosition::from_range_start(file_id, &symbol.selection_range),
    };
    proof {
        assert(gsym_view(r) == conv_node(file_id, sym_view(*symbol)));
    }
    r
}

// ---------------------------------------------------------------------------
// Search
// ---------------------------------------------------------------------------

/// The height of a structured-view symbol.
pub open spec fn gsym_height(s: GSym) -> nat
    decreases s,
{
    1 + gsyms_height(s.children)
}

/// The height of a structured-view symbol list.
pub open spec fn gsyms_height(ss: Seq<GSym>) -> nat
    decreases ss,
{
    if ss.len() == 0 {
        0
    } else {
        let h = gsym_height(ss.last());
        let rest = gsyms_height(ss.drop_last());
        if h > rest {
            h
        } else {
            rest
        }
    }
}

/// Every member of a symbol list is bounded by the list's height.
pub proof fn lemma_gsyms_height_mem(ss: Seq<GSym>, i: int)
    requires
        0 <= i < ss.len(),
    ensures
        gsym_height(ss[i]) <= gsyms_height(ss),
    decreases ss,
{
    if i < ss.len() - 1 {
        lemma_gsyms_height_mem(ss.drop_last(), i);
    }
}

/// What part of a search result matched.
#[derive(Debug, Clone, Copy, PartialEq, Eq, Structural)]
pub enum MatchType {
    SymbolName,
    SymbolKind,
    FilePath,
}

/// What part of a file search result matched.
#[derive(Debug, Clone, Copy, PartialEq, Eq, Structural)]
pub enum FileMatchType {
    Path,
    Name,
}

/// One symbol found by a search.
pub struct SearchResult {
    pub file_id: u32,
    pub file_path: String,
    pub symbol_name: String,
    pub symbol_kind: SymbolKind,
    pub global_position: GlobalPosition,
    pub match_type: MatchType,
    pub range: Range,
}

/// The mathematical model of a search result.
pub struct SRView {
    pub file_id: u32,
    pub file_path: Seq<char>,
    pub symbol_name: Seq<char>,
    pub symbol_kind: SymbolKind,
    pub global_position: GlobalPosition,
    pub match_type: MatchType,
    pub range: Range,
}

/// The model of one search result.
pub open spec fn sr_view(r: SearchResult) -> SRView {
    SRView {
        file_id: r.file_id,
        file_path: r.file_path@,
        symbol_name: r.symbol_name@,
        symbol_kind: r.symbol_kind,
        global_position: r.global_position,
        match_type: r.match_type,
        range: r.range,
    }
}

/// The models of a search result list.
pub open spec fn srs_view(rs: Seq<SearchResult>) -> Seq<SRView> {
    rs.map_values(|r: SearchResult| sr_view(r))
}

/// One file found by a search.
pub struct FileSearchResult {
    pub file_id: u32,
    pub file_path: String,
    pub match_type: FileMatchType,
}

/// The mathematical model of a file search result.
pub struct FSRView {
    pub file_id: u32,
    pub file_path: Seq<char>,
    pub match_type: FileMatchType,
}

/// The model of one file search result.
pub open spec fn fsr_view(r: FileSearchResult) -> FSRView {
    FSRView { file_id: r.file_id, file_path: r.file_path@, match_type: r.match_type }
}

/// The models of a file search result list.
pub open spec fn fsrs_view(rs: Seq<FileSearchResult>) -> Seq<FSRView> {
    rs.map_values(|r: FileSearchResult| fsr_view(r))
}

/// The query as it is compared: taken verbatim for a case-sensitive search,
/// ASCII-case-folded otherwise.
pub open spec fn folded_query(q: Seq<char>, cs: bool) -> Seq<char> {
    if cs {
        q
    } else {
        lower_of(q)
    }
}

/// Whether a name matches the folded query: by substring, with the name
/// case-folded too unless the search is case-sensitive.
pub open spec fn spec_name_hit(name: Seq<char>, fq: Seq<char>, cs: bool) -> bool {
    if cs {
        spec_contains_sub(name, fq)
    } else {
        spec_contains_sub(lower_of(name), fq)
    }
}

/// The result a matching symbol contributes.
pub open spec fn sym_result(fid: u32, fpath: Seq<char>, s: GSym, mt: MatchType) -> SRView {
    SRView {
        file_id: fid,
        file_path: fpath,
        symbol_name: s.name,
        symbol_kind: s.kind,
        global_position: s.global_position,
        match_type: mt,
        range: s.range,
    }
}

/// The name-search results of one symbol's subtree, the symbol itself first.
pub open spec fn search_sym(fid: u32, fpath: Seq<char>, s: GSym, fq: Seq<char>, cs: bool) -> Seq<
    SRView,
>
    decreases gsym_height(s), 0int,
        via search_sym_decreases
{
    (if spec_name_hit(s.name, fq, cs) {
        seq![sym_result(fid, fpath, s, MatchType::SymbolName)]
    } else {
        Seq::empty()
    }) + search_syms(fid, fpath, s.children, fq, cs)
}

/// The name-search results of a symbol list, in order.
pub open spec fn search_syms(
    fid: u32,
    fpath: Seq<char>,
    ss: Seq<GSym>,
    fq: Seq<char>,
    cs: bool,
) -> Seq<SRView>
    decreases gsyms_height(ss), ss.len(),
        via search_syms_decreases
{
    if ss.len() == 0 {
        Seq::empty()
    } else {
        search_syms(fid, fpath, ss.drop_last(), fq, cs) + search_sym(fid, fpath, ss.last(), fq, cs)
    }
}

#[via_fn]
proof fn search_sym_decreases(fid: u32, fpath: Seq<char>, s: GSym, fq: Seq<char>, cs: bool) {
}

#[via_fn]
proof fn search_syms_decreases(fid: u32, fpath: Seq<char>, ss: Seq<GSym>, fq: Seq<char>, cs: bool) {
    if ss.len() > 0 {
        lemma_gsyms_height_mem(ss, ss.len() - 1);
    }
}

/// The name-search results over the files, in file and then pre-order
/// traversal order, against the raw query.
pub open spec fn spec_search_symbols(files: Seq<GFile>, q: Seq<char>, cs: bool) -> Seq<SRView>
    decreases files.len(),
{
    if files.len() == 0 {
        Seq::empty()
    } else {
        spec_search_symbols(files.drop_last(), q, cs) + search_sym_file(files.last(), q, cs)
    }
}

/// The name-search results of one file, against the raw query.
pub open spec fn search_sym_file(f: GFile, q: Seq<char>, cs: bool) -> Seq<SRView> {
    search_syms(f.id, f.path, f.symbols, folded_query(q, cs), cs)
}

/// The kind-search results of one symbol's subtree.
pub open spec fn kind_sym(fid: u32, fpath: Seq<char>, s: GSym, k: SymbolKind) -> Seq<SRView>
    decreases gsym_height(s), 0int,
        via kind_sym_decreases
{
    (if s.kind == k {
        seq![sym_result(fid, fpath, s, MatchType::SymbolKind)]
    } else {
        Seq::empty()
    }) + kind_syms(fid, fpath, s.children, k)
}

/// The kind-search results of a symbol list, in order.
pub open spec fn kind_syms(fid: u32, fpath: Seq<char>, ss: Seq<GSym>, k: SymbolKind) -> Seq<SRView>
    decreases gsyms_height(ss), ss.len(),
        via kind_syms_decreases
{
    if ss.len() == 0 {
        Seq::empty()
    } else {
        kind_syms(fid, fpath, ss.drop_last(), k) + kind_sym(fid, fpath, ss.last(), k)
    }
}

#[via_fn]
proof fn kind_sym_decreases(fid: u32, fpath: Seq<char>, s: GSym, k: SymbolKind) {
}

#[via_fn]
proof fn kind_syms_decreases(fid: u32, fpath: Seq<char>, ss: Seq<GSym>, k: SymbolKind) {
    if ss.len() > 0 {
        lemma_gsyms_height_mem(ss, ss.len() - 1);
    }
}

/// The kind-search results over the files, in order.
pub open spec fn spec_search_by_kind(files: Seq<GFile>, k: SymbolKind) -> Seq<SRView>
    decreases files.len(),
{
    if files.len() == 0 {
        Seq::empty()
    } else {
        spec_search_by_kind(files.drop_last(), k) + kind_syms(
            files.last().id,
            files.last().path,
            files.last().symbols,
            k,
        )
    }
}

/// The path-search results over the files, in order.
pub open spec fn spec_search_files(files: Seq<GFile>, q: Seq<char>, cs: bool) -> Seq<FSRView>
    decreases files.len(),
{
    if files.len() == 0 {
        Seq::empty()
    } else {
        spec_search_files(files.drop_last(), q, cs) + (if spec_name_hit(
            files.last().path,
            folded_query(q, cs),
            cs,
        ) {
            seq![
                FSRView {
                    file_id: files.last().id,
                    file_path: files.last().path,
                    match_type: FileMatchType::Path,
                },
            ]
        } else {
            Seq::<FSRView>::empty()
        })
    }
}

/// The relations touching one key, in store order.
pub open spec fn spec_relations_of(rels: Seq<Relation>, gp: GlobalPosition) -> Seq<Relation>
    decreases rels.len(),
{
    if rels.len() == 0 {
        Seq::empty()
    } else {
        spec_relations_of(rels.drop_last(), gp) + (if rels.last().from == gp || rels.last().to
            == gp {
            seq![rels.last()]
        } else {
            Seq::<Relation>::empty()
        })
    }
}

fn name_hit(name: &str, fq: &String, cs: bool) -> (r: bool)
    ensures
        r == spec_name_hit(name@, fq@, cs),
{
    if cs {
        str_contains(name, fq.as_str())
    } else {
        let lower = to_lowercase(name);
        str_contains(lower.as_str(), fq.as_str())
    }
}

impl Graph {
    /// Searches symbol names for a substring, case-folded unless
    /// `case_sensitive`, recursing into children; results come in file and
    /// then pre-order traversal order.
    #[verifier::loop_isolation(false)]
    pub fn search_symbols(&self, query: &str, case_sensitive: bool) -> (r: Vec<SearchResult>)
        ensures
            srs_view(r@) == spec_search_symbols(gfiles_view(self.files@), query@, case_sensitive),
    {
        let search_query = if case_sensitive {
            String::from_str(query)
        } else {
            to_lowercase(query)
        };
        let ghost fv = gfiles_view(self.files@);
        let mut results: Vec<SearchResult> = Vec::new();
        let mut i: usize = 0;
        proof {
            assert(fv.take(0) =~= Seq::<GFile>::empty());
            assert(srs_view(results@) =~= spec_search_symbols(fv.take(0), query@, case_sensitive));
        }
        while i < self.files.len()
            invariant
                i <= self.files@.len(),
                fv == gfiles_view(self.files@),
                fv.len() == self.files@.len(),
                forall|j: int| 0 <= j < self.files@.len() ==> fv[j] == gfile_view(self.files@[j]),
                search_query@ == folded_query(query@, case_sensitive),
                srs_view(results@) == spec_search_symbols(
                    fv.take(i as int),
                    query@,
                    case_sensitive,
                ),
            decreases self.files@.len() - i,
        {
            self.search_symbols_in_file(
                &self.files[i],
                &search_query,
                case_sensitive,
                &mut results,
            );
            i = i + 1;
            proof {
                let t = fv.take(i as int);
                assert(t.drop_last() =~= fv.take(i - 1));
                assert(t.last() == fv[i - 1]);
                assert(srs_view(results@) =~= spec_search_symbols(
                    fv.take(i as int),
                    query@,
                    case_sensitive,
                ));
            }
        }
        proof {
            assert(fv.take(self.files@.len() as int) =~= fv);
        }
        results
    }

    #[verifier::loop_isolation(false)]
    fn search_symbols_in_file(
        &self,
        file: &File,
        search_query: &String,
        case_sensitive: bool,
        results: &mut Vec<SearchResult>,
    )
        ensures
            srs_view(final(results)@) == srs_view(old(results)@) + search_syms(
                gfile_view(*file).id,
                gfile_view(*file).path,
                gfile_view(*file).symbols,
                search_query@,
                case_sensitive,
            ),
    {
        broadcast use lemma_gsyms_view_index;

        let ghost f = gfile_view(*file);
        let mut i: usize = 0;
        proof {
            assert(f.symbols.take(0) =~= Seq::<GSym>::empty());
            assert(srs_view(results@) =~= srs_view(old(results)@) + search_syms(
                f.id,
                f.path,
                f.symbols.take(0),
                search_query@,
                case_sensitive,
            ));
        }
        while i < file.symbols.len()
            invariant
                i <= file.symbols@.len(),
                f == gfile_view(*file),
                f.symbols.len() == file.symbols@.len(),
                forall|j: int| 0 <= j < file.symbols@.len() ==> f.symbols[j] == gsym_view(
                    file.symbols@[j],
                ),
                srs_view(results@) == srs_view(old(results)@) + search_syms(
                    f.id,
                    f.path,
                    f.symbols.take(i as int),
                    search_query@,
                    case_sensitive,
                ),
            decreases file.symbols@.len() - i,
        {
            proof {
                lemma_gsyms_height_mem(f.symbols, i as int);
            }
            self.search_symbol_recursive(
                file,
                &file.symbols[i],
                search_query,
                case_sensitive,
                results,
            );
            i = i + 1;
            proof {
                let t = f.symbols.take(i as int);
                assert(t.drop_last() =~= f.symbols.take(i - 1));
                assert(t.last() == f.symbols[i - 1]);
                assert(srs_view(results@) =~= srs_view(old(results)@) + search_syms(
                    f.id,
                    f.path,
                    f.symbols.take(i as int),
                    search_query@,
                    case_sensitive,
                ));
            }
        }
        proof {
            assert(f.symbols.take(file.symbols@.len() as int) =~= f.symbols);
        }
    }

    #[verifier::loop_isolation(false)]
    #[verifier::rlimit(60)]
    fn search_symbol_recursive(
        &self,
        file: &File,
        symbol: &Symbol,
        search_query: &String,
        case_sensitive: bool,
        results: &mut Vec<SearchResult>,
    )
        ensures
            srs_view(final(results)@) == srs_view(old(results)@) + search_sym(
                gfile_view(*file).id,
                gfile_view(*file).path,
                gsym_view(*symbol),
                search_query@,
                case_sensitive,
            ),
        decreases gsym_height(gsym_view(*symbol)), 0int,
    {
        broadcast use lemma_gsyms_view_index;

        let ghost f = gfile_view(*file);
        let ghost sv = gsym_view(*symbol);
        let hit = name_hit(symbol.name.as_str(), search_query, case_sensitive);
        if hit {
            results.push(
                SearchResult {
                    file_id: file.id,
                    file_path: file.path.clone(),
                    symbol_name: symbol.name.clone(),
                    symbol_kind: symbol.kind,
                    global_position: symbol.global_position,
                    match_type: MatchType::SymbolName,
                    range: symbol.range,
                },
            );
            proof {
                assert(sr_view(results@.last()) == sym_result(
                    f.id,
                    f.path,
                    sv,
                    MatchType::SymbolName,
                ));
                assert(srs_view(results@) =~= srs_view(old(results)@) + seq![
                    sym_result(f.id, f.path, sv, MatchType::SymbolName),
                ]);
            }
        }
        let ghost mid = results@;
        let mut i: usize = 0;
        proof {
            assert(sv.children == gsyms_view(symbol.children@));
            assert(sv.children.take(0) =~= Seq::<GSym>::empty());
            assert(srs_view(results@) =~= srs_view(mid) + search_syms(
                f.id,
                f.path,
                sv.children.take(0),
                search_query@,
                case_sensitive,
            ));
        }
        while i < symbol.children.len()
            invariant
                i <= symbol.children@.len(),
                f == gfile_view(*file),
                sv == gsym_view(*symbol),
                sv.children.len() == symbol.children@.len(),
                forall|j: int| 0 <= j < symbol.children@.len() ==> sv.children[j] == gsym_view(
                    symbol.children@[j],
                ),
                srs_view(mid) == srs_view(old(results)@) + (if spec_name_hit(
                    sv.name,
                    search_query@,
                    case_sensitive,
                ) {
                    seq![sym_result(f.id, f.path, sv, MatchType::SymbolName)]
                } else {
                    Seq::<SRView>::empty()
                }),
                srs_view(results@) == srs_view(mid) + search_syms(
                    f.id,
                    f.path,
                    sv.children.take(i as int),
                    search_query@,
                    case_sensitive,
                ),
            decreases symbol.children@.len() - i,
        {
            proof {
                lemma_gsyms_height_mem(sv.children, i as int);
            }
            self.search_symbol_recursive(
                file,
                &symbol.children[i],
                search_query,
                case_sensitive,
                results,
            );
            i = i + 1;
            proof {
                let t = sv.children.take(i as int);
                assert(t.drop_last() =~= sv.children.take(i - 1));
                assert(t.last() == sv.children[i - 1]);
                assert(srs_view(results@) =~= srs_view(mid) + search_syms(
                    f.id,
                    f.path,
                    sv.children.take(i as int),
                    search_query@,
                    case_sensitive,
                ));
            }
        }
        proof {
            assert(sv.children.take(symbol.children@.len() as int) =~= sv.children);
            assert(srs_view(final(results)@) =~= srs_view(old(results)@) + search_sym(
                f.id,
                f.path,
                sv,
                search_query@,
                case_sensitive,
            ));
        }
    }
}

impl Graph {
    /// Searches for symbols of exactly the given kind, recursing into
    /// children; results come in file and then pre-order traversal order.
    #[verifier::loop_isolation(false)]
    pub fn search_by_symbol_kind(&self, kind: SymbolKind) -> (r: Vec<SearchResult>)
        ensures
            srs_view(r@) == spec_search_by_kind(gfiles_view(self.files@), kind),
    {
        let ghost fv = gfiles_view(self.files@);
        let mut results: Vec<SearchResult> = Vec::new();
        let mut i: usize = 0;
        proof {
            assert(fv.take(0) =~= Seq::<GFile>::empty());
            assert(srs_view(results@) =~= spec_search_by_kind(fv.take(0), kind));
        }
        while i < self.files.len()
            invariant
                i <= self.files@.len(),
                fv == gfiles_view(self.files@),
                fv.len() == self.files@.len(),
                forall|j: int| 0 <= j < self.files@.len() ==> fv[j] == gfile_view(self.files@[j]),
                srs_view(results@) == spec_search_by_kind(fv.take(i as int), kind),
            decreases self.files@.len() - i,
        {
            self.search_by_kind_in_file(&self.files[i], kind, &mut results);
            i = i + 1;
            proof {
                let t = fv.take(i as int);
                assert(t.drop_last() =~= fv.take(i - 1));
                assert(t.last() == fv[i - 1]);
                assert(srs_view(results@) =~= spec_search_by_kind(fv.take(i as int), kind));
            }
        }
        proof {
            assert(fv.take(self.files@.len() as int) =~= fv);
        }
        results
    }

    #[verifier::loop_isolation(false)]
    fn search_by_kind_in_file(&self, file: &File, target_kind: SymbolKind, results: &mut Vec<
        SearchResult,
    >)
        ensures
            srs_view(final(results)@) == srs_view(old(results)@) + kind_syms(
                gfile_view(*file).id,
                gfile_view(*file).path,
                gfile_view(*file).symbols,
                target_kind,
            ),
    {
        broadcast use lemma_gsyms_view_index;

        let ghost f = gfile_view(*file);
        let mut i: usize = 0;
        proof {
            assert(f.symbols.take(0) =~= Seq::<GSym>::empty());
            assert(srs_view(results@) =~= srs_view(old(results)@) + kind_syms(
                f.id,
                f.path,
                f.symbols.take(0),
                target_kind,
            ));
        }
        while i < file.symbols.len()
            invariant
                i <= file.symbols@.len(),
                f == gfile_view(*file),
                f.symbols.len() == file.symbols@.len(),
                forall|j: int| 0 <= j < file.symbols@.len() ==> f.symbols[j] == gsym_view(
                    file.symbols@[j],
                ),
                srs_view(results@) == srs_view(old(results)@) + kind_syms(
                    f.id,
                    f.path,
                    f.symbols.take(i as int),
                    target_kind,
                ),
            decreases file.symbols@.len() - i,
        {
            proof {
                lemma_gsyms_height_mem(f.symbols, i as int);
            }
            self.search_by_kind_recursive(file, &file.symbols[i], target_kind, results);
            i = i + 1;
            proof {
                let t = f.symbols.take(i as int);
                assert(t.drop_last() =~= f.symbols.take(i - 1));
                assert(t.last() == f.symbols[i - 1]);
                assert(srs_view(results@) =~= srs_view(old(results)@) + kind_syms(
                    f.id,
                    f.path,
                    f.symbols.take(i as int),
                    target_kind,
                ));
            }
        }
        proof {
            assert(f.symbols.take(file.symbols@.len() as int) =~= f.symbols);
        }
    }

    #[verifier::loop_isolation(false)]
    #[verifier::rlimit(60)]
    fn search_by_kind_recursive(
        &self,
        file: &File,
        symbol: &Symbol,
        target_kind: SymbolKind,
        results: &mut Vec<SearchResult>,
    )
        ensures
            srs_view(final(results)@) == srs_view(old(results)@) + kind_sym(
                gfile_view(*file).id,
                gfile_view(*file).path,
                gsym_view(*symbol),
                target_kind,
            ),
        decreases gsym_height(gsym_view(*symbol)), 0int,
    {
        broadcast use lemma_gsyms_view_index;

        let ghost f = gfile_view(*file);
        let ghost sv = gsym_view(*symbol);
        if symbol.kind == target_kind {
            results.push(
                SearchResult {
                    file_id: file.id,
                    file_path: file.path.clone(),
                    symbol_name: symbol.name.clone(),
                    symbol_kind: symbol.kind,
                    global_position: symbol.global_position,
                    match_type: MatchType::SymbolKind,
                    range: symbol.range,
                },
            );
            proof {
                assert(sr_view(results@.last()) == sym_result(
                    f.id,
                    f.path,
                    sv,
                    MatchType::SymbolKind,
                ));
                assert(srs_view(results@) =~= srs_view(old(results)@) + seq![
                    sym_result(f.id, f.path, sv, MatchType::SymbolKind),
                ]);
            }
        }
        let ghost mid = results@;
        let mut i: usize = 0;
        proof {
            assert(sv.children == gsyms_view(symbol.children@));
            assert(sv.children.take(0) =~= Seq::<GSym>::empty());
            assert(srs_view(results@) =~= srs_view(mid) + kind_syms(
                f.id,
                f.path,
                sv.children.take(0),
                target_kind,
            ));
        }
        while i < symbol.children.len()
            invariant
                i <= symbol.children@.len(),
                f == gfile_view(*file),
                sv == gsym_view(*symbol),
                sv.children.len() == symbol.children@.len(),
                forall|j: int| 0 <= j < symbol.children@.len() ==> sv.children[j] == gsym_view(
                    symbol.children@[j],
                ),
                srs_view(mid) == srs_view(old(results)@) + (if sv.kind == target_kind {
                    seq![sym_result(f.id, f.path, sv, MatchType::SymbolKind)]
                } else {
                    Seq::<SRView>::empty()
                }),
                srs_view(results@) == srs_view(mid) + kind_syms(
                    f.id,
                    f.path,
                    sv.children.take(i as int),
                    target_kind,
                ),
            decreases symbol.children@.len() - i,
        {
            proof {
                lemma_gsyms_height_mem(sv.children, i as int);
            }
            self.search_by_kind_recursive(file, &symbol.children[i], target_kind, results);
            i = i + 1;
            proof {
                let t = sv.children.take(i as int);
                assert(t.drop_last() =~= sv.children.take(i - 1));
                assert(t.last() == sv.children[i - 1]);
                assert(srs_view(results@) =~= srs_view(mid) + kind_syms(
                    f.id,
                    f.path,
                    sv.children.take(i as int),
                    target_kind,
                ));
            }
        }
        proof {
            assert(sv.children.take(symbol.children@.len() as int) =~= sv.children);
            assert(srs_view(final(results)@) =~= srs_view(old(results)@) + kind_sym(
                f.id,
                f.path,
                sv,
                target_kind,
            ));
        }
    }

    /// Searches file paths for a substring, case-folded unless
    /// `case_sensitive`; results come in file order.
    #[verifier::loop_isolation(false)]
    pub fn search_files(&self, query: &str, case_sensitive: bool) -> (r: Vec<FileSearchResult>)
        ensures
            fsrs_view(r@) == spec_search_files(gfiles_view(self.files@), query@, case_sensitive),
    {
        let search_query = if case_sensitive {
            String::from_str(query)
        } else {
            to_lowercase(query)
        };
        let ghost fv = gfiles_view(self.files@);
        let mut results: Vec<FileSearchResult> = Vec::new();
        let mut i: usize = 0;
        proof {
            assert(fv.take(0) =~= Seq::<GFile>::empty());
            assert(fsrs_view(results@) =~= spec_search_files(fv.take(0), query@, case_sensitive));
        }
        while i < self.files.len()
            invariant
                i <= self.files@.len(),
                fv == gfiles_view(self.files@),
                fv.len() == self.files@.len(),
                forall|j: int| 0 <= j < self.files@.len() ==> fv[j] == gfile_view(self.files@[j]),
                search_query@ == folded_query(query@, case_sensitive),
                fsrs_view(results@) == spec_search_files(fv.take(i as int), query@, case_sensitive),
            decreases self.files@.len() - i,
        {
            let hit = name_hit(self.files[i].path.as_str(), &search_query, case_sensitive);
            if hit {
                results.push(
                    FileSearchResult {
                        file_id: self.files[i].id,
                        file_path: self.files[i].path.clone(),
                        match_type: FileMatchType::Path,
                    },
                );
            }
            i = i + 1;
            proof {
                let t = fv.take(i as int);
                assert(t.drop_last() =~= fv.take(i - 1));
                assert(t.last() == fv[i - 1]);
                if hit {
                    assert(fsr_view(results@.last()) == (FSRView {
                        file_id: fv[i - 1].id,
                        file_path: fv[i - 1].path,
                        match_type: FileMatchType::Path,
                    }));
                }
                assert(fsrs_view(results@) =~= spec_search_files(
                    fv.take(i as int),
                    query@,
                    case_sensitive,
                ));
            }
        }
        proof {
            assert(fv.take(self.files@.len() as int) =~= fv);
        }
        results
    }

    /// Every relation that touches the given key, in store order.
    #[verifier::loop_isolation(false)]
    pub fn get_symbol_relations(&self, global_pos: GlobalPosition) -> (r: Vec<Relation>)
        ensures
            r@ == spec_relations_of(self.relations@, global_pos),
    {
        let mut results: Vec<Relation> = Vec::new();
        let mut i: usize = 0;
        proof {
            assert(self.relations@.take(0) =~= Seq::<Relation>::empty());
            assert(results@ =~= spec_relations_of(self.relations@.take(0), global_pos));
        }
        while i < self.relations.len()
            invariant
                i <= self.relations@.len(),
                results@ == spec_relations_of(self.relations@.take(i as int), global_pos),
            decreases self.relations@.len() - i,
        {
            let rel = self.relations[i];
            if rel.from == global_pos || rel.to == global_pos {
                results.push(rel);
            }
            i = i + 1;
            proof {
                let t = self.relations@.take(i as int);
                assert(t.drop_last() =~= self.relations@.take(i - 1));
                assert(t.last() == self.relations@[i - 1]);
                assert(results@ =~= spec_relations_of(
                    self.relations@.take(i as int),
                    global_pos,
                ));
            }
        }
        proof {
            assert(self.relations@.take(self.relations@.len() as int) =~= self.relations@);
        }
        results
    }
}

} // verus!
