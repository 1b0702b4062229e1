//! The graph-construction engine: an indexed store of per-file symbol
//! outlines, the three relation stores, highlight marks, and the render
//! operations that resolve them into tables, edges and clusters.

use vstd::prelude::*;

use crate::graph::{
    build_table, cells_view, ids_contain, lemma_cells_view_index, lemma_sg_forest_height_mem,
    lemma_subgraphs_view_index, sg_forest_height, spec_cells_ids, spec_table_of, strings_view,
    subgraph_view, subgraphs_view, table_view, Cell, Edge, EdgeKind, NodeId, Subgraph,
    SubgraphView, TableNode, TableView,
};
use crate::lang::{
    filter_out_file, language_handler, spec_filter_out_file, spec_language_of, Lang,
};
use crate::text::{
    escape_mermaid, parent_dir, path_starts_with, push_u32_dec, push_usize_dec, seq_char_le, spec_dec,
    spec_escape_mermaid, spec_parent_dir, spec_path_starts_with, spec_strip_prefix, str_eq_str,
    str_le, strip_prefix_or, u32_string,
};
use crate::graph::{cell_height, cell_view, cells_height, lemma_cells_height_mem, CellView};
use crate::lsp_types::{
    clone_symbols, forest_wf, sibs_view, CallHierarchyIncomingCall, CallHierarchyOutgoingCall,
    DocumentSymbol, Location, Position, SymNode,
};
use crate::graph_model::{
    conv_nodes, gfiles_view, rel_mem, spec_file_id, GFile, GlobalPosition, Graph, GraphBuilder,
    Relation, RelationKind,
};
use crate::outline::{
    item_node, outline_view, outline_wf, spec_repair, try_insert_symbol, FileOutline, OutlineView,
    RepairOutcome,
};

verus! {

/// A resolution-pending symbol identity: a file path and a position in it.
pub struct SymbolLocation {
    pub path: String,
    pub line: u32,
    pub character: u32,
}

impl SymbolLocation {
    /// Builds the location of `position` in the file at `path`.
    pub fn new(path: String, position: &Position) -> (r: SymbolLocation)
        ensures
            r.path == path,
            r.line == position.line,
            r.character == position.character,
    {
        SymbolLocation { path, line: position.line, character: position.character }
    }
}

/// The identity a location resolves by: its path's characters and position.
pub struct LocKey {
    pub path: Seq<char>,
    pub line: u32,
    pub character: u32,
}

/// The key of a stored location.
pub open spec fn key_of(l: SymbolLocation) -> LocKey {
    LocKey { path: l.path@, line: l.line, character: l.character }
}

/// The first entry of a keyed store holding `k`, if any.
pub open spec fn store_find<V>(s: Seq<(SymbolLocation, V)>, k: LocKey) -> Option<int>
    decreases s.len(),
{
    if s.len() == 0 {
        Option::None
    } else if key_of(s[0].0) == k {
        Option::Some(0int)
    } else {
        match store_find(s.skip(1), k) {
            Option::None => Option::None,
            Option::Some(i) => Option::Some(i + 1),
        }
    }
}

/// Writing an entry into a keyed store: an entry under the same key is
/// overwritten, not merged; a new key is appended.
pub open spec fn store_put<V>(s: Seq<(SymbolLocation, V)>, e: (SymbolLocation, V)) -> Seq<
    (SymbolLocation, V),
> {
    match store_find(s, key_of(e.0)) {
        Option::Some(i) => s.update(i, e),
        Option::None => s.push(e),
    }
}

/// A found store index is in bounds and holds the key.
pub proof fn lemma_store_find<V>(s: Seq<(SymbolLocation, V)>, k: LocKey)
    ensures
        match store_find(s, k) {
            Option::Some(i) => 0 <= i < s.len() && key_of(s[i].0) == k,
            Option::None => forall|j: int| 0 <= j < s.len() ==> key_of((#[trigger] s[j]).0) != k,
        },
    decreases s.len(),
{
    if s.len() > 0 && key_of(s[0].0) != k {
        lemma_store_find(s.skip(1), k);
        match store_find(s.skip(1), k) {
            Option::Some(i) => {
                assert(s.skip(1)[i] == s[i + 1]);
            },
            Option::None => {
                assert forall|j: int| 0 <= j < s.len() implies key_of((#[trigger] s[j]).0)
                    != k by {
                    if j > 0 {
                        assert(s.skip(1)[j - 1] == s[j]);
                        assert(key_of(s.skip(1)[j - 1].0) != k);
                    }
                }
            },
        }
    }
}

fn loc_key_eq(l: &SymbolLocation, path: &String, line: u32, character: u32) -> (r: bool)
    ensures
        r == (key_of(*l) == (LocKey { path: path@, line, character })),
{
    let r = l.path == *path && l.line == line && l.character == character;
    proof {
        if r {
            assert(key_of(*l) == (LocKey { path: path@, line, character }));
        }
    }
    r
}

/// Writes `(loc, value)` into `store`, overwriting the entry with the same
/// key when one exists.
#[verifier::loop_isolation(false)]
fn store_put_vec<V>(store: &mut Vec<(SymbolLocation, V)>, loc: SymbolLocation, value: V)
    ensures
        final(store)@ == store_put(old(store)@, (loc, value)),
{
    proof {
        lemma_store_find(old(store)@, key_of(loc));
    }
    let ghost orig = old(store)@;
    let mut i: usize = 0;
    while i < store.len()
        invariant
            orig == store@,
            i <= store@.len(),
            forall|j: int| 0 <= j < i ==> key_of((#[trigger] store@[j]).0) != key_of(loc),
        decreases store@.len() - i,
    {
        let hit = loc_key_eq(&store[i].0, &loc.path, loc.line, loc.character);
        if hit {
            proof {
                lemma_store_find_prefix(orig, key_of(loc), i as int);
            }
            store.remove(i);
            let ghost post_remove = store@;
            store.insert(i, (loc, value));
            proof {
                orig.remove_ensures(i as int);
                post_remove.insert_ensures(i as int, (loc, value));
                assert(store@ == post_remove.insert(i as int, (loc, value)));
                assert forall|j: int| 0 <= j < store@.len() implies store@[j] == orig.update(
                    i as int,
                    (loc, value),
                )[j] by {
                    if j < i {
                        assert(store@[j] == post_remove[j]);
                        assert(post_remove[j] == orig[j]);
                    } else if j > i {
                        assert(store@[j] == post_remove[j - 1]);
                        assert(post_remove[j - 1] == orig[j]);
                    }
                }
                assert(store@ =~= orig.update(i as int, (loc, value)));
                assert(store_find(orig, key_of(loc)) == Option::Some(i as int));
                assert(store_put(orig, (loc, value)) == orig.update(i as int, (loc, value)));
                assert(orig == old(store)@);
                assert(store@ == store_put(old(store)@, (loc, value)));
            }
            return ;
        }
        i = i + 1;
    }
    store.push((loc, value));
    proof {
        assert(store@ == orig.push((loc, value)));
        assert(store_find(orig, key_of(loc)) is None);
        assert(store_put(orig, (loc, value)) == orig.push((loc, value)));
    }
}

/// When no entry before `i` holds `k` and the entry at `i` does, the find
/// lands on `i`.
proof fn lemma_store_find_prefix<V>(s: Seq<(SymbolLocation, V)>, k: LocKey, i: int)
    requires
        0 <= i < s.len(),
        key_of(s[i].0) == k,
        forall|j: int| 0 <= j < i ==> key_of((#[trigger] s[j]).0) != k,
    ensures
        store_find(s, k) == Option::Some(i),
    decreases i,
{
    if i > 0 {
        assert(s.skip(1)[i - 1] == s[i]);
        assert forall|j: int| 0 <= j < i - 1 implies key_of((#[trigger] s.skip(1)[j]).0) != k by {
            assert(s.skip(1)[j] == s[j + 1]);
            assert(key_of(s[j + 1].0) != k);
        }
        lemma_store_find_prefix(s.skip(1), k, i - 1);
    } else {
    }
}

// ---------------------------------------------------------------------------
// The engine
// ---------------------------------------------------------------------------

/// The graph-construction engine.
pub struct GraphGenerator {
    pub root: String,
    pub files: Vec<FileOutline>,
    pub lang: Lang,
    pub incoming: Vec<(SymbolLocation, Vec<CallHierarchyIncomingCall>)>,
    pub outgoing: Vec<(SymbolLocation, Vec<CallHierarchyOutgoingCall>)>,
    pub interfaces: Vec<(SymbolLocation, Vec<SymbolLocation>)>,
    pub highlights: Vec<(u32, Vec<Position>)>,
}

impl GraphGenerator {
    /// The model of the stored outlines.
    pub open spec fn files_view(self) -> Seq<OutlineView> {
        self.files@.map_values(|f: FileOutline| outline_view(f))
    }

    /// The configured project root.
    pub open spec fn root_view(self) -> Seq<char> {
        self.root@
    }

    /// The configured strategy.
    pub open spec fn lang_view(self) -> Lang {
        self.lang
    }

    /// The model of the incoming-call store.
    pub open spec fn incoming_view(self) -> Seq<(SymbolLocation, Vec<CallHierarchyIncomingCall>)> {
        self.incoming@
    }

    /// The model of the outgoing-call store.
    pub open spec fn outgoing_view(self) -> Seq<(SymbolLocation, Vec<CallHierarchyOutgoingCall>)> {
        self.outgoing@
    }

    /// The model of the implementation store.
    pub open spec fn interfaces_view(self) -> Seq<(SymbolLocation, Vec<SymbolLocation>)> {
        self.interfaces@
    }

    /// The model of the highlight marks.
    pub open spec fn highlights_view(self) -> Seq<(u32, Vec<Position>)> {
        self.highlights@
    }

    /// The stored file paths, in order of their ids.
    pub open spec fn paths_view(self) -> Seq<Seq<char>> {
        self.files_view().map_values(|f: OutlineView| f.path)
    }

    /// Well-formedness of the engine: file ids are the dense one-based
    /// indices of the outline arena, paths are unique, every outline's tree
    /// is well-formed, and no relation key occurs twice.
    pub open spec fn wf(self) -> bool {
        &&& self.files@.len() < u32::MAX
        &&& forall|i: int|
            0 <= i < self.files@.len() ==> (#[trigger] self.files@[i]).id == i + 1
        &&& forall|i: int, j: int|
            0 <= i < j < self.files@.len() ==> (#[trigger] self.files@[i]).path@ != (
            #[trigger] self.files@[j]).path@
        &&& forall|i: int| 0 <= i < self.files@.len() ==> outline_wf(#[trigger] self.files@[i])
        &&& forall|i: int, j: int|
            0 <= i < j < self.incoming@.len() ==> key_of((#[trigger] self.incoming@[i]).0) != key_of(
                (#[trigger] self.incoming@[j]).0,
            )
        &&& forall|i: int, j: int|
            0 <= i < j < self.outgoing@.len() ==> key_of((#[trigger] self.outgoing@[i]).0) != key_of(
                (#[trigger] self.outgoing@[j]).0,
            )
        &&& forall|i: int, j: int|
            0 <= i < j < self.interfaces@.len() ==> key_of((#[trigger] self.interfaces@[i]).0)
                != key_of((#[trigger] self.interfaces@[j]).0)
        &&& forall|i: int, j: int|
            0 <= i < j < self.highlights@.len() ==> (#[trigger] self.highlights@[i]).0 != (
            #[trigger] self.highlights@[j]).0
    }

    /// Builds an empty engine for a project root, with the strategy chosen
    /// by the configuration string.
    pub fn new(root: String, lang: &str) -> (r: GraphGenerator)
        ensures
            r.wf(),
            r.root_view() == root@,
            r.lang_view() == spec_language_of(lang@),
            r.files_view() =~= Seq::<OutlineView>::empty(),
            r.incoming_view() =~= Seq::<(SymbolLocation, Vec<CallHierarchyIncomingCall>)>::empty(),
            r.outgoing_view() =~= Seq::<(SymbolLocation, Vec<CallHierarchyOutgoingCall>)>::empty(),
            r.interfaces_view() =~= Seq::<(SymbolLocation, Vec<SymbolLocation>)>::empty(),
            r.highlights_view() =~= Seq::<(u32, Vec<Position>)>::empty(),
    {
        GraphGenerator {
            root,
            files: Vec::new(),
            lang: language_handler(lang),
            incoming: Vec::new(),
            outgoing: Vec::new(),
            interfaces: Vec::new(),
            highlights: Vec::new(),
        }
    }

    /// Whether the strategy excludes the file from the graph altogether.
    pub fn should_filter_out_file(&self, file_path: &str) -> (r: bool)
        ensures
            r == spec_filter_out_file(self.lang_view(), file_path@),
    {
        filter_out_file(self.lang, file_path)
    }

    /// The index of the stored file at `path`, if any.
    pub open spec fn spec_find_file(self, path: Seq<char>) -> Option<int> {
        spec_find_path(self.files_view(), path)
    }

    fn find_file_idx(&self, path: &str) -> (r: Option<usize>)
        ensures
            match r {
                Option::Some(i) => i < self.files@.len() && self.spec_find_file(path@)
                    == Option::Some(i as int),
                Option::None => self.spec_find_file(path@) == Option::<int>::None,
            },
    {
        proof {
            lemma_find_path(self.files_view(), path@);
        }
        let mut i: usize = 0;
        while i < self.files.len()
            invariant
                i <= self.files@.len(),
                forall|j: int| 0 <= j < i ==> (#[trigger] self.files_view()[j]).path != path@,
        decreases self.files@.len() - i,
        {
            let hit = crate::text::str_eq_str(self.files[i].path.as_str(), path);
            if hit {
                proof {
                    assert(self.files_view()[i as int].path == path@);
                    lemma_find_path_prefix(self.files_view(), path@, i as int);
                }
                return Option::Some(i);
            }
            i = i + 1;
        }
        Option::None
    }

    /// Stores one file's outline under the next sequential id.  The call is
    /// rejected — `false`, no state change — when the strategy excludes the
    /// file or the path is already present; it succeeds otherwise.
    pub fn add_file(&mut self, file_path: String, symbols: Vec<DocumentSymbol>) -> (r: bool)
        requires
            old(self).wf(),
            old(self).files_view().len() + 1 < u32::MAX,
            forest_wf(sibs_view(symbols@)),
        ensures
            final(self).wf(),
            r == (!spec_filter_out_file(old(self).lang_view(), file_path@)
                && old(self).spec_find_file(file_path@) is None),
            r ==> final(self).files_view() =~= old(self).files_view().push(
                OutlineView {
                    id: (old(self).files_view().len() + 1) as u32,
                    path: file_path@,
                    symbols: sibs_view(symbols@),
                },
            ),
            !r ==> final(self).files_view() =~= old(self).files_view(),
            final(self).root_view() == old(self).root_view(),
            final(self).lang_view() == old(self).lang_view(),
            final(self).incoming_view() == old(self).incoming_view(),
            final(self).outgoing_view() == old(self).outgoing_view(),
            final(self).interfaces_view() == old(self).interfaces_view(),
            final(self).highlights_view() == old(self).highlights_view(),
    {
        if filter_out_file(self.lang, file_path.as_str()) {
            return false;
        }
        let existing = self.find_file_idx(file_path.as_str());
        if existing.is_some() {
            return false;
        }
        let next_id = self.files.len() as u32 + 1;
        let file = FileOutline { id: next_id, path: file_path, symbols };
        self.files.push(file);
        proof {
            let ov = old(self).files_view();
            assert(forall|i: int|
                0 <= i < old(self).files@.len() ==> (#[trigger] self.files@[i]) == old(
                    self,
                ).files@[i]);
            lemma_find_path(ov, self.files@.last().path@);
            assert forall|i: int| 0 <= i < ov.len() implies (#[trigger] self.files@[i]).path@
                != self.files@.last().path@ by {
                assert(ov[i] == outline_view(old(self).files@[i]));
                assert(ov[i].path != self.files@.last().path@);
            }
            assert(outline_wf(self.files@.last()));
            assert(final(self).files_view() =~= ov.push(
                OutlineView {
                    id: (ov.len() + 1) as u32,
                    path: self.files@.last().path@,
                    symbols: sibs_view(self.files@.last().symbols@),
                },
            ));
        }
        true
    }

    /// Records the incoming calls prepared for the symbol at `position` of
    /// `file_path`; a list recorded earlier for the same key is overwritten.
    pub fn add_incoming_calls(
        &mut self,
        file_path: String,
        position: Position,
        calls: Vec<CallHierarchyIncomingCall>,
    )
        requires
            old(self).wf(),
        ensures
            final(self).wf(),
            final(self).incoming_view() == store_put(
                old(self).incoming_view(),
                (SymbolLocation { path: file_path, line: position.line, character: position.character }, calls),
            ),
            final(self).files_view() == old(self).files_view(),
            final(self).root_view() == old(self).root_view(),
            final(self).lang_view() == old(self).lang_view(),
            final(self).outgoing_view() == old(self).outgoing_view(),
            final(self).interfaces_view() == old(self).interfaces_view(),
            final(self).highlights_view() == old(self).highlights_view(),
    {
        let location = SymbolLocation::new(file_path, &position);
        let ghost e = (location, calls);
        store_put_vec(&mut self.incoming, location, calls);
        proof {
            lemma_store_put_wf(old(self).incoming@, e);
        }
    }

    /// Records the outgoing calls prepared for the symbol at `position` of
    /// `file_path`; a list recorded earlier for the same key is overwritten.
    pub fn add_outgoing_calls(
        &mut self,
        file_path: String,
        position: Position,
        calls: Vec<CallHierarchyOutgoingCall>,
    )
        requires
            old(self).wf(),
        ensures
            final(self).wf(),
            final(self).outgoing_view() == store_put(
                old(self).outgoing_view(),
                (SymbolLocation { path: file_path, line: position.line, character: position.character }, calls),
            ),
            final(self).files_view() == old(self).files_view(),
            final(self).root_view() == old(self).root_view(),
            final(self).lang_view() == old(self).lang_view(),
            final(self).incoming_view() == old(self).incoming_view(),
            final(self).interfaces_view() == old(self).interfaces_view(),
            final(self).highlights_view() == old(self).highlights_view(),
    {
        let location = SymbolLocation::new(file_path, &position);
        let ghost e = (location, calls);
        store_put_vec(&mut self.outgoing, location, calls);
        proof {
            lemma_store_put_wf(old(self).outgoing@, e);
        }
    }

    /// Records the implementors of the interface member at `position` of
    /// `file_path`; a list recorded earlier for the same key is overwritten.
    pub fn add_interface_implementations(
        &mut self,
        file_path: String,
        position: Position,
        locations: Vec<Location>,
    )
        requires
            old(self).wf(),
        ensures
            final(self).wf(),
            ({
                let loc = SymbolLocation {
                    path: file_path,
                    line: position.line,
                    character: position.character,
                };
                match store_find(final(self).interfaces_view(), key_of(loc)) {
                    Option::Some(fi) => {
                        let impls = final(self).interfaces_view()[fi].1;
                        &&& impls@.map_values(|l: SymbolLocation| key_of(l))
                            == locations@.map_values(
                            |l: Location|
                                LocKey {
                                    path: l.uri.path@,
                                    line: l.range.start.line,
                                    character: l.range.start.character,
                                },
                        )
                        &&& final(self).interfaces_view() == store_put(
                            old(self).interfaces_view(),
                            (loc, impls),
                        )
                    },
                    Option::None => false,
                }
            }),
            final(self).files_view() == old(self).files_view(),
            final(self).root_view() == old(self).root_view(),
            final(self).lang_view() == old(self).lang_view(),
            final(self).incoming_view() == old(self).incoming_view(),
            final(self).outgoing_view() == old(self).outgoing_view(),
            final(self).highlights_view() == old(self).highlights_view(),
    {
        let location = SymbolLocation::new(file_path, &position);
        let mut implementations: Vec<SymbolLocation> = Vec::new();
        let mut i: usize = 0;
        while i < locations.len()
            invariant
                i <= locations@.len(),
                implementations@.len() == i,
                forall|j: int|
                    0 <= j < i ==> key_of(#[trigger] implementations@[j]) == (LocKey {
                        path: locations@[j].uri.path@,
                        line: locations@[j].range.start.line,
                        character: locations@[j].range.start.character,
                    }),
            decreases locations@.len() - i,
        {
            let l = &locations[i];
            implementations.push(
                SymbolLocation {
                    path: l.uri.path.clone(),
                    line: l.range.start.line,
                    character: l.range.start.character,
                },
            );
            i = i + 1;
        }
        let ghost impls_built = implementations;
        let ghost loc_g = SymbolLocation {
            path: location.path,
            line: location.line,
            character: location.character,
        };
        store_put_vec(&mut self.interfaces, location, implementations);
        proof {
            let k = key_of(loc_g);
            lemma_store_put_wf(old(self).interfaces@, (loc_g, impls_built));
            assert(self.interfaces@ == store_put(old(self).interfaces@, (loc_g, impls_built)));
            lemma_store_find(old(self).interfaces@, k);
            match store_find(old(self).interfaces@, k) {
                Option::Some(i) => {
                    assert(self.interfaces@ == old(self).interfaces@.update(i, (loc_g, impls_built)));
                    assert(forall|j: int|
                        0 <= j < i ==> key_of((#[trigger] self.interfaces@[j]).0) != k);
                    lemma_store_find_prefix(self.interfaces@, k, i);
                },
                Option::None => {
                    assert(self.interfaces@ == old(self).interfaces@.push((loc_g, impls_built)));
                    lemma_store_find_prefix(self.interfaces@, k, self.interfaces@.len() - 1);
                },
            }
            assert(impls_built@.map_values(|l: SymbolLocation| key_of(l)) =~= locations@.map_values(
                |l: Location|
                    LocKey {
                        path: l.uri.path@,
                        line: l.range.start.line,
                        character: l.range.start.character,
                    },
            ));
        }
    }

    /// Marks the cell at `position` of `file_path` for visual emphasis; the
    /// mark is additive and never cleared.  Marks on unknown files are
    /// dropped.
    #[verifier::loop_isolation(false)]
    pub fn highlight(&mut self, file_path: String, position: Position)
        requires
            old(self).wf(),
        ensures
            final(self).wf(),
            final(self).files_view() == old(self).files_view(),
            final(self).root_view() == old(self).root_view(),
            final(self).lang_view() == old(self).lang_view(),
            final(self).incoming_view() == old(self).incoming_view(),
            final(self).outgoing_view() == old(self).outgoing_view(),
            final(self).interfaces_view() == old(self).interfaces_view(),
            match old(self).spec_find_file(file_path@) {
                Option::None => final(self).highlights_view() == old(self).highlights_view(),
                Option::Some(fi) => spec_marks_of(
                    final(self).highlights_view(),
                    old(self).files_view()[fi].id,
                ).to_set() =~= spec_marks_of(
                    old(self).highlights_view(),
                    old(self).files_view()[fi].id,
                ).to_set().insert(position) && forall|id: u32|
                    id != old(self).files_view()[fi].id ==> spec_marks_of(
                        final(self).highlights_view(),
                        id,
                    ) == spec_marks_of(old(self).highlights_view(), id),
            },
    {
        let fi = match self.find_file_idx(file_path.as_str()) {
            Option::None => { return ; },
            Option::Some(fi) => fi,
        };
        let file_id = self.files[fi].id;
        let ghost orig = self.highlights@;
        let mut i: usize = 0;
        while i < self.highlights.len()
            invariant
                *self == *old(self),
                self.highlights@ == orig,
                i <= orig.len(),
                forall|j: int| 0 <= j < i ==> (#[trigger] orig[j]).0 != file_id,
            decreases orig.len() - i,
        {
            if self.highlights[i].0 == file_id {
                let present = crate::graph::marks_contain(&self.highlights[i].1, position);
                if !present {
                    let ghost entry = self.highlights@[i as int];
                    let taken = self.highlights.remove(i);
                    let (fid2, mut marks) = taken;
                    marks.push(position);
                    self.highlights.insert(i, (fid2, marks));
                    proof {
                        assert(self.highlights@ =~= orig.update(
                            i as int,
                            (entry.0, self.highlights@[i as int].1),
                        ));
                        lemma_marks_of_entries(orig, self.highlights@, i as int, file_id, position);
                        assert forall|a: int, b: int|
                            0 <= a < b < self.highlights@.len() implies (
                        #[trigger] self.highlights@[a]).0 != (#[trigger] self.highlights@[b]).0 by {
                            assert(self.highlights@[a].0 == orig[a].0);
                            assert(self.highlights@[b].0 == orig[b].0);
                        }
                    }
                } else {
                    proof {
                        lemma_marks_of_found(orig, i as int, file_id);
                        assert(orig[i as int].1@.contains(position));
                        assert(spec_marks_of(orig, file_id).to_set().contains(position));
                        assert(spec_marks_of(orig, file_id).to_set() =~= spec_marks_of(
                            orig,
                            file_id,
                        ).to_set().insert(position));
                    }
                }
                return ;
            }
            i = i + 1;
        }
        let mut marks: Vec<Position> = Vec::new();
        marks.push(position);
        self.highlights.push((file_id, marks));
        proof {
            assert forall|a: int, b: int| 0 <= a < b < self.highlights@.len() implies (
            #[trigger] self.highlights@[a]).0 != (#[trigger] self.highlights@[b]).0 by {
                if b < orig.len() {
                    assert(self.highlights@[a] == orig[a]);
                    assert(self.highlights@[b] == orig[b]);
                } else {
                    assert(self.highlights@[a] == orig[a]);
                    assert(self.highlights@[b].0 == file_id);
                }
            }
            lemma_marks_of_push(orig, file_id, self.highlights@.last().1);
            lemma_marks_of_none(orig, file_id);
            assert(spec_marks_of(self.highlights@, file_id) =~= seq![position]);
            assert(seq![position][0] == position);
            assert(spec_marks_of(self.highlights@, file_id).to_set() =~= spec_marks_of(
                orig,
                file_id,
            ).to_set().insert(position));
        }
    }
}

/// The index of the outline stored at `path`, if any.
pub open spec fn spec_find_path(files: Seq<OutlineView>, path: Seq<char>) -> Option<int>
    decreases files.len(),
{
    if files.len() == 0 {
        Option::None
    } else if files[0].path == path {
        Option::Some(0int)
    } else {
        match spec_find_path(files.skip(1), path) {
            Option::None => Option::None,
            Option::Some(i) => Option::Some(i + 1),
        }
    }
}

/// A found file index is in bounds and holds the path.
pub proof fn lemma_find_path(files: Seq<OutlineView>, path: Seq<char>)
    ensures
        match spec_find_path(files, path) {
            Option::Some(i) => 0 <= i < files.len() && files[i].path == path,
            Option::None => forall|j: int|
                0 <= j < files.len() ==> (#[trigger] files[j]).path != path,
        },
    decreases files.len(),
{
    if files.len() > 0 && files[0].path != path {
        lemma_find_path(files.skip(1), path);
        match spec_find_path(files.skip(1), path) {
            Option::Some(i) => {
                assert(files.skip(1)[i] == files[i + 1]);
            },
            Option::None => {
                assert forall|j: int| 0 <= j < files.len() implies (#[trigger] files[j]).path
                    != path by {
                    if j > 0 {
                        assert(files.skip(1)[j - 1] == files[j]);
                        assert(files.skip(1)[j - 1].path != path);
                    }
                }
            },
        }
    }
}

/// When no outline before `i` holds `path` and the one at `i` does, the find
/// lands on `i`.
pub proof fn lemma_find_path_prefix(files: Seq<OutlineView>, path: Seq<char>, i: int)
    requires
        0 <= i < files.len(),
        files[i].path == path,
        forall|j: int| 0 <= j < i ==> (#[trigger] files[j]).path != path,
    ensures
        spec_find_path(files, path) == Option::Some(i),
    decreases i,
{
    if i > 0 {
        assert(files.skip(1)[i - 1] == files[i]);
        assert forall|j: int| 0 <= j < i - 1 implies (#[trigger] files.skip(1)[j]).path != path by {
            assert(files.skip(1)[j] == files[j + 1]);
            assert(files[j + 1].path != path);
        }
        lemma_find_path_prefix(files.skip(1), path, i - 1);
    }
}

/// The marks recorded for a file id: the entry's positions, or none.
pub open spec fn spec_marks_of(hl: Seq<(u32, Vec<Position>)>, id: u32) -> Seq<Position>
    decreases hl.len(),
{
    if hl.len() == 0 {
        Seq::empty()
    } else if hl[0].0 == id {
        hl[0].1@
    } else {
        spec_marks_of(hl.skip(1), id)
    }
}

proof fn lemma_marks_of_found(hl: Seq<(u32, Vec<Position>)>, i: int, id: u32)
    requires
        0 <= i < hl.len(),
        hl[i].0 == id,
        forall|j: int| 0 <= j < i ==> (#[trigger] hl[j]).0 != id,
    ensures
        spec_marks_of(hl, id) == hl[i].1@,
    decreases i,
{
    if i > 0 {
        lemma_marks_of_found(hl.skip(1), i - 1, id);
    }
}

proof fn lemma_marks_of_entries(
    old_hl: Seq<(u32, Vec<Position>)>,
    new_hl: Seq<(u32, Vec<Position>)>,
    i: int,
    id: u32,
    p: Position,
)
    requires
        0 <= i < old_hl.len(),
        new_hl =~= old_hl.update(i, (old_hl[i].0, new_hl[i].1)),
        old_hl[i].0 == id,
        forall|j: int| 0 <= j < i ==> (#[trigger] old_hl[j]).0 != id,
        new_hl[i].1@ == old_hl[i].1@.push(p),
    ensures
        spec_marks_of(new_hl, id).to_set() =~= spec_marks_of(old_hl, id).to_set().insert(p),
        forall|other: u32| other != id ==> spec_marks_of(new_hl, other) == spec_marks_of(
            old_hl,
            other,
        ),
{
    lemma_marks_of_found(old_hl, i, id);
    assert(new_hl[i].0 == id);
    assert(forall|j: int| 0 <= j < i ==> (#[trigger] new_hl[j]).0 != id);
    lemma_marks_of_found(new_hl, i, id);
    assert(spec_marks_of(new_hl, id) == old_hl[i].1@.push(p));
    lemma_to_set_push(old_hl[i].1@, p);
    assert forall|other: u32| other != id implies spec_marks_of(new_hl, other) == spec_marks_of(
        old_hl,
        other,
    ) by {
        assert forall|j: int| 0 <= j < old_hl.len() implies ((#[trigger] new_hl[j]).0
            == old_hl[j].0 && (new_hl[j].0 == other ==> new_hl[j].1 == old_hl[j].1)) by {
            if j != i {
                assert(new_hl[j] == old_hl[j]);
            }
        }
        lemma_marks_of_same(old_hl, new_hl, other);
    }
}

proof fn lemma_marks_of_same(
    old_hl: Seq<(u32, Vec<Position>)>,
    new_hl: Seq<(u32, Vec<Position>)>,
    id: u32,
)
    requires
        old_hl.len() == new_hl.len(),
        forall|j: int|
            0 <= j < old_hl.len() ==> (#[trigger] new_hl[j]).0 == old_hl[j].0 && (new_hl[j].0 == id
                ==> new_hl[j].1 == old_hl[j].1),
    ensures
        spec_marks_of(new_hl, id) == spec_marks_of(old_hl, id),
    decreases old_hl.len(),
{
    if old_hl.len() > 0 {
        assert(new_hl[0].0 == old_hl[0].0);
        if old_hl[0].0 != id {
            assert forall|j: int| 0 <= j < old_hl.len() - 1 implies ((#[trigger] new_hl.skip(
                1,
            )[j]).0 == old_hl.skip(1)[j].0 && (new_hl.skip(1)[j].0 == id ==> new_hl.skip(1)[j].1
                == old_hl.skip(1)[j].1)) by {
                assert(new_hl.skip(1)[j] == new_hl[j + 1]);
                assert(old_hl.skip(1)[j] == old_hl[j + 1]);
            }
            lemma_marks_of_same(old_hl.skip(1), new_hl.skip(1), id);
        } else {
            assert(new_hl[0].1 == old_hl[0].1);
        }
    }
}

proof fn lemma_marks_of_push(hl: Seq<(u32, Vec<Position>)>, id: u32, marks: Vec<Position>)
    requires
        forall|j: int| 0 <= j < hl.len() ==> (#[trigger] hl[j]).0 != id,
    ensures
        spec_marks_of(hl.push((id, marks)), id) == marks@,
        forall|other: u32| other != id ==> spec_marks_of(hl.push((id, marks)), other)
            == spec_marks_of(hl, other),
    decreases hl.len(),
{
    let t = hl.push((id, marks));
    if hl.len() == 0 {
        assert(t[0].0 == id);
        assert forall|other: u32| other != id implies spec_marks_of(t, other) == spec_marks_of(
            hl,
            other,
        ) by {
            assert(t.skip(1) =~= hl);
            assert(spec_marks_of(t, other) == spec_marks_of(t.skip(1), other));
        }
    } else {
        assert(t[0] == hl[0]);
        assert(t.skip(1) =~= hl.skip(1).push((id, marks)));
        assert forall|j: int| 0 <= j < hl.skip(1).len() implies (#[trigger] hl.skip(1)[j]).0
            != id by {
            assert(hl.skip(1)[j] == hl[j + 1]);
        }
        lemma_marks_of_push(hl.skip(1), id, marks);
        assert(hl[0].0 != id);
        assert(spec_marks_of(t, id) == spec_marks_of(t.skip(1), id));
        assert forall|other: u32| other != id implies spec_marks_of(t, other) == spec_marks_of(
            hl,
            other,
        ) by {
            if hl[0].0 != other {
                assert(spec_marks_of(t, other) == spec_marks_of(t.skip(1), other));
                assert(spec_marks_of(hl, other) == spec_marks_of(hl.skip(1), other));
            }
        }
    }
}

proof fn lemma_marks_of_none(hl: Seq<(u32, Vec<Position>)>, id: u32)
    requires
        forall|j: int| 0 <= j < hl.len() ==> (#[trigger] hl[j]).0 != id,
    ensures
        spec_marks_of(hl, id) == Seq::<Position>::empty(),
    decreases hl.len(),
{
    if hl.len() > 0 {
        assert(forall|j: int| 0 <= j < hl.len() - 1 ==> hl.skip(1)[j] == hl[j + 1]);
        lemma_marks_of_none(hl.skip(1), id);
    }
}

/// Pushing onto a sequence adds exactly one element to its set.
proof fn lemma_to_set_push(s: Seq<Position>, p: Position)
    ensures
        s.push(p).to_set() =~= s.to_set().insert(p),
{
    assert forall|x: Position| s.push(p).to_set().contains(x) implies s.to_set().insert(p).contains(
        x,
    ) by {
        let j = choose|j: int| 0 <= j < s.push(p).len() && s.push(p)[j] == x;
        if j < s.len() {
            assert(s[j] == x);
        }
    }
    assert forall|x: Position| s.to_set().insert(p).contains(x) implies s.push(p).to_set().contains(
        x,
    ) by {
        if s.to_set().contains(x) {
            let j = choose|j: int| 0 <= j < s.len() && s[j] == x;
            assert(s.push(p)[j] == x);
        } else {
            assert(s.push(p)[s.len() as int] == x);
        }
    }
}

/// Overwriting or appending a keyed entry keeps the keys unique.
proof fn lemma_store_put_wf<V>(s: Seq<(SymbolLocation, V)>, e: (SymbolLocation, V))
    requires
        forall|i: int, j: int|
            0 <= i < j < s.len() ==> key_of((#[trigger] s[i]).0) != key_of((#[trigger] s[j]).0),
    ensures
        ({
            let t = store_put(s, e);
            forall|i: int, j: int|
                0 <= i < j < t.len() ==> key_of((#[trigger] t[i]).0) != key_of((#[trigger] t[j]).0)
        }),
{
    let k = key_of(e.0);
    lemma_store_find(s, k);
    let t = store_put(s, e);
    match store_find(s, k) {
        Option::Some(i) => {
            assert(forall|j: int| 0 <= j < t.len() && j != i ==> t[j] == s[j]);
            assert(t[i] == e);
            assert forall|a: int, b: int| 0 <= a < b < t.len() implies key_of(
                (#[trigger] t[a]).0,
            ) != key_of((#[trigger] t[b]).0) by {
                if a == i {
                    assert(key_of(s[b].0) != key_of(s[i].0));
                } else if b == i {
                    assert(key_of(s[a].0) != key_of(s[i].0));
                }
            }
        },
        Option::None => {
            assert(forall|j: int| 0 <= j < s.len() ==> t[j] == s[j]);
            assert(t.last() == e);
        },
    }
}

// ---------------------------------------------------------------------------
// Render-time edge resolution
// ---------------------------------------------------------------------------

/// Resolves a (path, position) reference against the stored outlines: the
/// file's id with the position taken verbatim, or nothing when the file is
/// unknown.
pub open spec fn spec_resolve(
    files: Seq<OutlineView>,
    path: Seq<char>,
    line: u32,
    character: u32,
) -> Option<NodeId> {
    match spec_find_path(files, path) {
        Option::None => Option::None,
        Option::Some(i) => Option::Some(NodeId { file_id: files[i].id, line, character }),
    }
}

/// Appends an edge unless an equal edge — same endpoints, same kind — is
/// already present.
pub open spec fn push_edge(edges: Seq<Edge>, e: Edge) -> Seq<Edge> {
    if edges.contains(e) {
        edges
    } else {
        edges.push(e)
    }
}

/// A left fold over a sequence.
pub open spec fn fold_steps<A, B>(acc: A, s: Seq<B>, f: spec_fn(A, B) -> A) -> A
    decreases s.len(),
{
    if s.len() == 0 {
        acc
    } else {
        fold_steps(f(acc, s[0]), s.skip(1), f)
    }
}

/// A left fold takes the last element last.
pub proof fn lemma_fold_steps_push<A, B>(acc: A, s: Seq<B>, x: B, f: spec_fn(A, B) -> A)
    ensures
        fold_steps(acc, s.push(x), f) == f(fold_steps(acc, s, f), x),
    decreases s.len(),
{
    if s.len() == 0 {
        assert(s.push(x)[0] == x);
        assert(s.push(x).skip(1) =~= Seq::<B>::empty());
        assert(fold_steps(acc, s.push(x), f) == fold_steps(f(acc, x), Seq::<B>::empty(), f));
        assert(fold_steps(f(acc, x), Seq::<B>::empty(), f) == f(acc, x));
        assert(fold_steps(acc, s, f) == acc);
    } else {
        assert(s.push(x)[0] == s[0]);
        assert(s.push(x).skip(1) =~= s.skip(1).push(x));
        lemma_fold_steps_push(f(acc, s[0]), s.skip(1), x, f);
        assert(fold_steps(acc, s.push(x), f) == fold_steps(f(acc, s[0]), s.skip(1).push(x), f));
        assert(fold_steps(acc, s, f) == fold_steps(f(acc, s[0]), s.skip(1), f));
    }
}

/// The state the incoming-call pass threads along: the outlines (possibly
/// repaired), the node ids inserted so far in this pass, and the edges found.
pub struct IncAcc {
    pub files: Seq<OutlineView>,
    pub inserted: Seq<NodeId>,
    pub edges: Seq<Edge>,
}

/// One caller of one incoming relation.  The caller is resolved; when it is
/// displayed, already inserted, or a repair makes it part of its file's
/// outline, a plain edge from it to the callee is kept; otherwise this
/// caller alone is dropped.
pub open spec fn inc_caller_step(
    acc: IncAcc,
    disp: Set<NodeId>,
    to: NodeId,
    call: CallHierarchyIncomingCall,
) -> IncAcc {
    match spec_find_path(acc.files, call.from.uri.path@) {
        Option::None => acc,
        Option::Some(fi) => {
            let from = NodeId {
                file_id: acc.files[fi].id,
                line: call.from.selection_range.start.line,
                character: call.from.selection_range.start.character,
            };
            let e = Edge { from, to, kind: EdgeKind::Plain };
            if disp.contains(from) || acc.inserted.contains(from) {
                IncAcc { edges: push_edge(acc.edges, e), ..acc }
            } else {
                match spec_repair(acc.files[fi].symbols, item_node(call.from), false) {
                    RepairOutcome::Found => IncAcc {
                        inserted: acc.inserted.push(from),
                        edges: push_edge(acc.edges, e),
                        ..acc
                    },
                    RepairOutcome::Failed => acc,
                    RepairOutcome::Inserted(t) => IncAcc {
                        files: acc.files.update(
                            fi,
                            OutlineView { symbols: t, ..acc.files[fi] },
                        ),
                        inserted: acc.inserted.push(from),
                        edges: push_edge(acc.edges, e),
                    },
                }
            }
        },
    }
}

/// One incoming relation: the callee is resolved and must be displayed, or
/// the whole relation is skipped; then each caller is taken in turn.
pub open spec fn inc_rel_step(
    acc: IncAcc,
    disp: Set<NodeId>,
    rel: (SymbolLocation, Vec<CallHierarchyIncomingCall>),
) -> IncAcc {
    match spec_resolve(acc.files, rel.0.path@, rel.0.line, rel.0.character) {
        Option::None => acc,
        Option::Some(to) => {
            if !disp.contains(to) {
                acc
            } else {
                fold_steps(
                    acc,
                    rel.1@,
                    |a: IncAcc, c: CallHierarchyIncomingCall| inc_caller_step(a, disp, to, c),
                )
            }
        },
    }
}

/// The whole incoming pass over the store, in order.
pub open spec fn inc_pass(
    files: Seq<OutlineView>,
    disp: Set<NodeId>,
    rels: Seq<(SymbolLocation, Vec<CallHierarchyIncomingCall>)>,
) -> IncAcc {
    fold_steps(
        IncAcc { files, inserted: Seq::empty(), edges: Seq::empty() },
        rels,
        |a: IncAcc, r: (SymbolLocation, Vec<CallHierarchyIncomingCall>)| inc_rel_step(a, disp, r),
    )
}

/// One callee of one outgoing relation: kept only when already displayed; no
/// repair is ever attempted.
pub open spec fn out_call_step(
    edges: Seq<Edge>,
    files: Seq<OutlineView>,
    disp: Set<NodeId>,
    from: NodeId,
    call: CallHierarchyOutgoingCall,
) -> Seq<Edge> {
    match spec_resolve(
        files,
        call.to.uri.path@,
        call.to.selection_range.start.line,
        call.to.selection_range.start.character,
    ) {
        Option::None => edges,
        Option::Some(to) => {
            if disp.contains(to) {
                push_edge(edges, Edge { from, to, kind: EdgeKind::Plain })
            } else {
                edges
            }
        },
    }
}

/// One outgoing relation: the caller is resolved and must be displayed, or
/// the whole relation is skipped.
pub open spec fn out_rel_step(
    edges: Seq<Edge>,
    files: Seq<OutlineView>,
    disp: Set<NodeId>,
    rel: (SymbolLocation, Vec<CallHierarchyOutgoingCall>),
) -> Seq<Edge> {
    match spec_resolve(files, rel.0.path@, rel.0.line, rel.0.character) {
        Option::None => edges,
        Option::Some(from) => {
            if !disp.contains(from) {
                edges
            } else {
                fold_steps(
                    edges,
                    rel.1@,
                    |es: Seq<Edge>, c: CallHierarchyOutgoingCall| out_call_step(
                        es,
                        files,
                        disp,
                        from,
                        c,
                    ),
                )
            }
        },
    }
}

/// The whole outgoing pass over the store, in order.
pub open spec fn out_pass(
    edges: Seq<Edge>,
    files: Seq<OutlineView>,
    disp: Set<NodeId>,
    rels: Seq<(SymbolLocation, Vec<CallHierarchyOutgoingCall>)>,
) -> Seq<Edge> {
    fold_steps(
        edges,
        rels,
        |es: Seq<Edge>, r: (SymbolLocation, Vec<CallHierarchyOutgoingCall>)| out_rel_step(
            es,
            files,
            disp,
            r,
        ),
    )
}

/// One implementor of one implementation relation: kept only when already
/// displayed; the edge runs from the implementor to the interface member and
/// carries the `implements` tag.
pub open spec fn impl_loc_step(
    edges: Seq<Edge>,
    files: Seq<OutlineView>,
    disp: Set<NodeId>,
    to: NodeId,
    loc: SymbolLocation,
) -> Seq<Edge> {
    match spec_resolve(files, loc.path@, loc.line, loc.character) {
        Option::None => edges,
        Option::Some(from) => {
            if disp.contains(from) {
                push_edge(edges, Edge { from, to, kind: EdgeKind::Impl })
            } else {
                edges
            }
        },
    }
}

/// One implementation relation: the interface member is resolved and must be
/// displayed, or the whole relation is skipped.
pub open spec fn impl_rel_step(
    edges: Seq<Edge>,
    files: Seq<OutlineView>,
    disp: Set<NodeId>,
    rel: (SymbolLocation, Vec<SymbolLocation>),
) -> Seq<Edge> {
    match spec_resolve(files, rel.0.path@, rel.0.line, rel.0.character) {
        Option::None => edges,
        Option::Some(to) => {
            if !disp.contains(to) {
                edges
            } else {
                fold_steps(
                    edges,
                    rel.1@,
                    |es: Seq<Edge>, l: SymbolLocation| impl_loc_step(es, files, disp, to, l),
                )
            }
        },
    }
}

/// The whole implementation pass over the store, in order.
pub open spec fn impl_pass(
    edges: Seq<Edge>,
    files: Seq<OutlineView>,
    disp: Set<NodeId>,
    rels: Seq<(SymbolLocation, Vec<SymbolLocation>)>,
) -> Seq<Edge> {
    fold_steps(
        edges,
        rels,
        |es: Seq<Edge>, r: (SymbolLocation, Vec<SymbolLocation>)| impl_rel_step(
            es,
            files,
            disp,
            r,
        ),
    )
}

// ---------------------------------------------------------------------------
// Tables and the displayed node-id set
// ---------------------------------------------------------------------------

/// The models of a table list, element by element.
pub open spec fn tables_vec_view(ts: Seq<TableNode>) -> Seq<TableView> {
    ts.map_values(|t: TableNode| table_view(t))
}

/// The tables of the stored files, in id order, each with its file's marks.
pub open spec fn spec_tables(
    files: Seq<OutlineView>,
    lang: Lang,
    hl: Seq<(u32, Vec<Position>)>,
) -> Seq<TableView> {
    files.map_values(|f: OutlineView| spec_table_of(f, lang, spec_marks_of(hl, f.id)))
}

/// The displayed node-id set: every cell of every built table, nested cells
/// included.
pub open spec fn spec_displayed(tables: Seq<TableView>) -> Set<NodeId>
    decreases tables.len(),
{
    if tables.len() == 0 {
        Set::empty()
    } else {
        spec_displayed(tables.drop_last()).union(
            spec_cells_ids(tables.last().id, tables.last().sections),
        )
    }
}

/// Copies the marks recorded for file `id`.
fn marks_vec(hl: &Vec<(u32, Vec<Position>)>, id: u32) -> (r: Vec<Position>)
    ensures
        r@ == spec_marks_of(hl@, id),
{
    let mut i: usize = 0;
    while i < hl.len()
        invariant
            i <= hl@.len(),
            forall|j: int| 0 <= j < i ==> (#[trigger] hl@[j]).0 != id,
        decreases hl@.len() - i,
    {
        if hl[i].0 == id {
            let src = &hl[i].1;
            let mut out: Vec<Position> = Vec::new();
            let mut j: usize = 0;
            while j < src.len()
                invariant
                    j <= src@.len(),
                    out@ == src@.take(j as int),
                decreases src@.len() - j,
            {
                out.push(src[j]);
                j = j + 1;
                proof {
                    assert(out@ =~= src@.take(j as int));
                }
            }
            proof {
                assert(src@.take(src@.len() as int) =~= src@);
                lemma_marks_of_found(hl@, i as int, id);
            }
            return out;
        }
        i = i + 1;
    }
    proof {
        lemma_marks_of_none(hl@, id);
    }
    Vec::new()
}

impl GraphGenerator {
    /// The displayed node-id set of the engine's current state.
    pub open spec fn spec_disp(self) -> Set<NodeId> {
        spec_displayed(spec_tables(self.files_view(), self.lang, self.highlights@))
    }

    /// Builds one render table per stored file, in id order, with the file's
    /// highlight marks applied.
    pub fn build_tables(&self) -> (ts: Vec<TableNode>)
        ensures
            tables_vec_view(ts@) == spec_tables(self.files_view(), self.lang_view(), self.highlights_view()),
    {
        let mut ts: Vec<TableNode> = Vec::new();
        let mut i: usize = 0;
        while i < self.files.len()
            invariant
                i <= self.files@.len(),
                tables_vec_view(ts@) =~= spec_tables(
                    self.files_view(),
                    self.lang,
                    self.highlights@,
                ).take(i as int),
            decreases self.files@.len() - i,
        {
            let marks = marks_vec(&self.highlights, self.files[i].id);
            let ghost prev = ts@;
            let t = build_table(&self.files[i], self.lang, &marks);
            ts.push(t);
            i = i + 1;
            proof {
                let st = spec_tables(self.files_view(), self.lang, self.highlights@);
                assert(self.files_view()[i - 1] == outline_view(self.files@[i - 1]));
                assert(st[i - 1] == spec_table_of(
                    self.files_view()[i - 1],
                    self.lang,
                    spec_marks_of(self.highlights@, self.files_view()[i - 1].id),
                ));
                assert(tables_vec_view(prev).len() == prev.len());
                assert(tables_vec_view(prev).len() == st.take(i - 1).len());
                assert(prev.len() == i - 1);
                assert(ts@.len() == i);
                assert(tables_vec_view(ts@).len() == ts@.len());
                assert(tables_vec_view(ts@).len() == i);
                assert forall|j: int| 0 <= j < i implies tables_vec_view(ts@)[j] == st.take(
                    i as int,
                )[j] by {
                    assert(tables_vec_view(ts@)[j] == table_view(ts@[j]));
                    if j < i - 1 {
                        assert(ts@[j] == prev[j]);
                        assert(tables_vec_view(prev)[j] == table_view(prev[j]));
                        assert(tables_vec_view(prev)[j] == st.take(i - 1)[j]);
                    } else {
                        assert(ts@[j] == t);
                    }
                }
                assert(tables_vec_view(ts@) =~= st.take(i as int));
            }
        }
        proof {
            let st = spec_tables(self.files_view(), self.lang, self.highlights@);
            assert(st.take(self.files@.len() as int) =~= st);
        }
        ts
    }
}

/// Collects the identity of every cell of one table.
fn collect_table_ids(t: &TableNode, ids: &mut Vec<NodeId>)
    ensures
        forall|x: NodeId| #[trigger]
            final(ids)@.contains(x) <==> old(ids)@.contains(x) || spec_cells_ids(
                t.id,
                table_view(*t).sections,
            ).contains(x),
{
    broadcast use lemma_cells_view_index;

    let ghost sections = table_view(*t).sections;
    let mut i: usize = 0;
    proof {
        assert(sections.take(0) =~= Seq::<crate::graph::CellView>::empty());
    }
    while i < t.sections.len()
        invariant
            i <= t.sections@.len(),
            sections == cells_view(t.sections@),
            sections.len() == t.sections@.len(),
            forall|j: int| 0 <= j < t.sections@.len() ==> sections[j] == crate::graph::cell_view(
                t.sections@[j],
            ),
            forall|x: NodeId| #[trigger]
                ids@.contains(x) <==> old(ids)@.contains(x) || spec_cells_ids(
                    t.id,
                    sections.take(i as int),
                ).contains(x),
        decreases t.sections@.len() - i,
    {
        crate::graph::collect_cell_ids(t.id, &t.sections[i], ids);
        i = i + 1;
        proof {
            let tk = sections.take(i as int);
            assert(tk.drop_last() =~= sections.take(i - 1));
            assert(tk.last() == sections[i - 1]);
        }
    }
    proof {
        assert(sections.take(t.sections@.len() as int) =~= sections);
    }
}

/// Computes the displayed node-id set of a list of built tables.
fn collect_ids(tables: &Vec<TableNode>) -> (ids: Vec<NodeId>)
    ensures
        forall|x: NodeId| #[trigger]
            ids@.contains(x) <==> spec_displayed(tables_vec_view(tables@)).contains(x),
{
    let ghost tv = tables_vec_view(tables@);
    let mut ids: Vec<NodeId> = Vec::new();
    let mut i: usize = 0;
    proof {
        assert(tv.take(0) =~= Seq::<TableView>::empty());
    }
    while i < tables.len()
        invariant
            i <= tables@.len(),
            tv == tables_vec_view(tables@),
            tv.len() == tables@.len(),
            forall|j: int| 0 <= j < tables@.len() ==> tv[j] == table_view(tables@[j]),
            forall|x: NodeId| #[trigger]
                ids@.contains(x) <==> spec_displayed(tv.take(i as int)).contains(x),
        decreases tables@.len() - i,
    {
        collect_table_ids(&tables[i], &mut ids);
        i = i + 1;
        proof {
            let tk = tv.take(i as int);
            assert(tk.drop_last() =~= tv.take(i - 1));
            assert(tk.last() == tv[i - 1]);
        }
    }
    proof {
        assert(tv.take(tables@.len() as int) =~= tv);
    }
    ids
}

/// Finds the index of the stored file at `path`, if any.
fn find_file_in(files: &Vec<FileOutline>, path: &str) -> (r: Option<usize>)
    ensures
        match r {
            Option::Some(i) => i < files@.len() && spec_find_path(
                files@.map_values(|f: FileOutline| outline_view(f)),
                path@,
            ) == Option::Some(i as int),
            Option::None => spec_find_path(
                files@.map_values(|f: FileOutline| outline_view(f)),
                path@,
            ) == Option::<int>::None,
        },
{
    let ghost fv = files@.map_values(|f: FileOutline| outline_view(f));
    proof {
        lemma_find_path(fv, path@);
    }
    let mut i: usize = 0;
    while i < files.len()
        invariant
            i <= files@.len(),
            fv == files@.map_values(|f: FileOutline| outline_view(f)),
            forall|j: int| 0 <= j < i ==> (#[trigger] fv[j]).path != path@,
        decreases files@.len() - i,
    {
        let hit = crate::text::str_eq_str(files[i].path.as_str(), path);
        if hit {
            proof {
                assert(fv[i as int].path == path@);
                lemma_find_path_prefix(fv, path@, i as int);
            }
            return Option::Some(i);
        }
        i = i + 1;
    }
    Option::None
}

/// Appends `e` to `edges` unless an equal edge is already there.
fn edges_push(edges: &mut Vec<Edge>, e: Edge)
    ensures
        final(edges)@ == push_edge(old(edges)@, e),
{
    let mut i: usize = 0;
    while i < edges.len()
        invariant
            edges@ == old(edges)@,
            i <= edges@.len(),
            forall|j: int| 0 <= j < i ==> edges@[j] != e,
        decreases edges@.len() - i,
    {
        let c = edges[i];
        if c.from.file_id == e.from.file_id && c.from.line == e.from.line && c.from.character
            == e.from.character && c.to.file_id == e.to.file_id && c.to.line == e.to.line
            && c.to.character == e.to.character && matches!(
            (c.kind, e.kind),
            (EdgeKind::Plain, EdgeKind::Plain) | (EdgeKind::Impl, EdgeKind::Impl),
        ) {
            proof {
                assert(edges@[i as int] == e);
                assert(edges@.contains(e));
            }
            return ;
        }
        i = i + 1;
    }
    proof {
        assert(!old(edges)@.contains(e));
    }
    edges.push(e);
}

/// The frame of a render: everything but the outlines is untouched, and the
/// outlines keep their ids and paths.
pub open spec fn render_frame(g0: GraphGenerator, g1: GraphGenerator) -> bool {
    &&& g1.root@ == g0.root@
    &&& g1.lang == g0.lang
    &&& g1.incoming@ == g0.incoming@
    &&& g1.outgoing@ == g0.outgoing@
    &&& g1.interfaces@ == g0.interfaces@
    &&& g1.highlights@ == g0.highlights@
}

impl GraphGenerator {
    /// The state of the incoming pass over the whole store.
    pub open spec fn spec_render_acc(self) -> IncAcc {
        inc_pass(self.files_view(), self.spec_disp(), self.incoming@)
    }

    /// The edge set of a render: the incoming pass, then the outgoing pass,
    /// then the implementation pass, deduplicated by full edge identity, in
    /// first-discovery order.
    pub open spec fn spec_render_edges(self) -> Seq<Edge> {
        let acc = self.spec_render_acc();
        impl_pass(
            out_pass(acc.edges, acc.files, self.spec_disp(), self.outgoing@),
            acc.files,
            self.spec_disp(),
            self.interfaces@,
        )
    }

    /// Resolves relation endpoints into the renderable edge set, repairing
    /// outlines for incoming-call callers that a repair can place; `disp_vec`
    /// must hold the displayed node-id set of the current state.
    #[verifier::loop_isolation(false)]
    #[verifier::rlimit(100)]
    fn collect_edges(&mut self, disp_vec: &Vec<NodeId>) -> (edges: Vec<Edge>)
        requires
            old(self).wf(),
            forall|x: NodeId| #[trigger]
                disp_vec@.contains(x) <==> old(self).spec_disp().contains(x),
        ensures
            final(self).wf(),
            render_frame(*old(self), *final(self)),
            final(self).files_view() == old(self).spec_render_acc().files,
            edges@ == old(self).spec_render_edges(),
    {
        let ghost disp = old(self).spec_disp();
        let ghost f_rel = |a: IncAcc, r: (SymbolLocation, Vec<CallHierarchyIncomingCall>)|
            inc_rel_step(a, disp, r);
        let ghost acc0 = IncAcc {
            files: old(self).files_view(),
            inserted: Seq::empty(),
            edges: Seq::empty(),
        };
        let mut inserted: Vec<NodeId> = Vec::new();
        let mut edges: Vec<Edge> = Vec::new();
        let mut k: usize = 0;
        proof {
            assert(old(self).incoming@.take(0) =~= Seq::<
                (SymbolLocation, Vec<CallHierarchyIncomingCall>),
            >::empty());
        }
        while k < self.incoming.len()
            invariant
                k <= self.incoming@.len(),
                self.wf(),
                render_frame(*old(self), *self),
                fold_steps(acc0, old(self).incoming@.take(k as int), f_rel) == (IncAcc {
                    files: self.files_view(),
                    inserted: inserted@,
                    edges: edges@,
                }),
            decreases self.incoming@.len() - k,
        {
            let ghost acc_entry = IncAcc {
                files: self.files_view(),
                inserted: inserted@,
                edges: edges@,
            };
            let ghost rel = self.incoming@[k as int];
            let to_file = find_file_in(&self.files, self.incoming[k].0.path.as_str());
            match to_file {
                Option::None => {},
                Option::Some(fi) => {
                    let to = NodeId {
                        file_id: self.files[fi].id,
                        line: self.incoming[k].0.line,
                        character: self.incoming[k].0.character,
                    };
                    if ids_contain(disp_vec, to) {
                        let ghost f_call = |a: IncAcc, c: CallHierarchyIncomingCall|
                            inc_caller_step(a, disp, to, c);
                        let ghost calls = self.incoming@[k as int].1@;
                        let mut c: usize = 0;
                        proof {
                            assert(calls.take(0) =~= Seq::<CallHierarchyIncomingCall>::empty());
                        }
                        while c < self.incoming[k].1.len()
                            invariant
                                k < self.incoming@.len(),
                                c <= calls.len(),
                                calls == self.incoming@[k as int].1@,
                                self.wf(),
                                render_frame(*old(self), *self),
                                fold_steps(acc_entry, calls.take(c as int), f_call) == (IncAcc {
                                    files: self.files_view(),
                                    inserted: inserted@,
                                    edges: edges@,
                                }),
                            decreases calls.len() - c,
                        {
                            let ghost cur = IncAcc {
                                files: self.files_view(),
                                inserted: inserted@,
                                edges: edges@,
                            };
                            let ghost call = calls[c as int];
                            let from_file = find_file_in(
                                &self.files,
                                self.incoming[k].1[c].from.uri.path.as_str(),
                            );
                            match from_file {
                                Option::None => {},
                                Option::Some(fj) => {
                                    let from = NodeId {
                                        file_id: self.files[fj].id,
                                        line: self.incoming[k].1[c].from.selection_range.start.line,
                                        character: self.incoming[k].1[c].from.selection_range.start.character,
                                    };
                                    let e = Edge { from, to, kind: EdgeKind::Plain };
                                    if ids_contain(disp_vec, from) || ids_contain(
                                        &inserted,
                                        from,
                                    ) {
                                        edges_push(&mut edges, e);
                                    } else {
                                        proof {
                                            assert(outline_wf(self.files@[fj as int]));
                                        }
                                        let did = try_insert_symbol(
                                            &self.incoming[k].1[c].from,
                                            &mut self.files[fj],
                                        );
                                        proof {
                                            assert forall|j: int|
                                                0 <= j < self.files@.len() && j != fj
                                                    implies #[trigger] self.files_view()[j]
                                                == cur.files[j] by {
                                            }
                                        }
                                        if did {
                                            inserted.push(from);
                                            edges_push(&mut edges, e);
                                        }
                                        proof {
                                            match spec_repair(
                                                cur.files[fj as int].symbols,
                                                item_node(call.from),
                                                false,
                                            ) {
                                                RepairOutcome::Found => {
                                                    assert(self.files_view() =~= cur.files);
                                                },
                                                RepairOutcome::Failed => {
                                                    assert(self.files_view() =~= cur.files);
                                                },
                                                RepairOutcome::Inserted(t) => {
                                                    assert(self.files_view() =~= cur.files.update(
                                                        fj as int,
                                                        OutlineView {
                                                            symbols: t,
                                                            ..cur.files[fj as int]
                                                        },
                                                    ));
                                                },
                                            }
                                        }
                                    }
                                },
                            }
                            c = c + 1;
                            proof {
                                assert(calls.take(c as int).drop_last() =~= calls.take(c - 1));
                                assert(calls.take(c as int) =~= calls.take(c - 1).push(
                                    calls[c - 1],
                                ));
                                lemma_fold_steps_push(
                                    acc_entry,
                                    calls.take(c - 1),
                                    calls[c - 1],
                                    f_call,
                                );
                                assert(inc_caller_step(cur, disp, to, call) == (IncAcc {
                                    files: self.files_view(),
                                    inserted: inserted@,
                                    edges: edges@,
                                }));
                            }
                        }
                        proof {
                            assert(calls.take(calls.len() as int) =~= calls);
                        }
                    }
                },
            }
            k = k + 1;
            proof {
                let pre = old(self).incoming@.take(k - 1);
                assert(old(self).incoming@.take(k as int) =~= pre.push(rel));
                lemma_fold_steps_push(acc0, pre, rel, f_rel);
                assert(inc_rel_step(acc_entry, disp, rel) == (IncAcc {
                    files: self.files_view(),
                    inserted: inserted@,
                    edges: edges@,
                }));
            }
        }
        proof {
            assert(old(self).incoming@.take(self.incoming@.len() as int) =~= old(self).incoming@);
            assert(old(self).spec_render_acc() == (IncAcc {
                files: self.files_view(),
                inserted: inserted@,
                edges: edges@,
            }));
        }
        let ghost acc_files = self.files_view();
        // Outgoing calls: no repair, read-only.
        let ghost f_orel = |es: Seq<Edge>, r: (SymbolLocation, Vec<CallHierarchyOutgoingCall>)|
            out_rel_step(es, acc_files, disp, r);
        let ghost out_base = edges@;
        let mut k: usize = 0;
        proof {
            assert(self.outgoing@.take(0) =~= Seq::<
                (SymbolLocation, Vec<CallHierarchyOutgoingCall>),
            >::empty());
        }
        while k < self.outgoing.len()
            invariant
                k <= self.outgoing@.len(),
                self.wf(),
                render_frame(*old(self), *self),
                acc_files == self.files_view(),
                fold_steps(out_base, self.outgoing@.take(k as int), f_orel) == edges@,
            decreases self.outgoing@.len() - k,
        {
            let ghost e_entry = edges@;
            let ghost rel = self.outgoing@[k as int];
            let from_file = find_file_in(&self.files, self.outgoing[k].0.path.as_str());
            match from_file {
                Option::None => {},
                Option::Some(fi) => {
                    let from = NodeId {
                        file_id: self.files[fi].id,
                        line: self.outgoing[k].0.line,
                        character: self.outgoing[k].0.character,
                    };
                    if ids_contain(disp_vec, from) {
                        let ghost f_oc = |es: Seq<Edge>, cc: CallHierarchyOutgoingCall|
                            out_call_step(es, acc_files, disp, from, cc);
                        let ghost calls = self.outgoing@[k as int].1@;
                        let mut c: usize = 0;
                        proof {
                            assert(calls.take(0) =~= Seq::<CallHierarchyOutgoingCall>::empty());
                        }
                        while c < self.outgoing[k].1.len()
                            invariant
                                k < self.outgoing@.len(),
                                c <= calls.len(),
                                calls == self.outgoing@[k as int].1@,
                                self.wf(),
                                render_frame(*old(self), *self),
                                acc_files == self.files_view(),
                                fold_steps(e_entry, calls.take(c as int), f_oc) == edges@,
                            decreases calls.len() - c,
                        {
                            let ghost cur = edges@;
                            let ghost call = calls[c as int];
                            let to_file = find_file_in(
                                &self.files,
                                self.outgoing[k].1[c].to.uri.path.as_str(),
                            );
                            match to_file {
                                Option::None => {},
                                Option::Some(fj) => {
                                    let to = NodeId {
                                        file_id: self.files[fj].id,
                                        line: self.outgoing[k].1[c].to.selection_range.start.line,
                                        character: self.outgoing[k].1[c].to.selection_range.start.character,
                                    };
                                    if ids_contain(disp_vec, to) {
                                        edges_push(
                                            &mut edges,
                                            Edge { from, to, kind: EdgeKind::Plain },
                                        );
                                    }
                                },
                            }
                            c = c + 1;
                            proof {
                                assert(calls.take(c as int) =~= calls.take(c - 1).push(
                                    calls[c - 1],
                                ));
                                lemma_fold_steps_push(e_entry, calls.take(c - 1), calls[c - 1], f_oc);
                                assert(out_call_step(cur, acc_files, disp, from, call) == edges@);
                            }
                        }
                        proof {
                            assert(calls.take(calls.len() as int) =~= calls);
                        }
                    }
                },
            }
            k = k + 1;
            proof {
                assert(self.outgoing@.take(k as int) =~= self.outgoing@.take(k - 1).push(rel));
                lemma_fold_steps_push(out_base, self.outgoing@.take(k - 1), rel, f_orel);
                assert(out_rel_step(e_entry, acc_files, disp, rel) == edges@);
            }
        }
        proof {
            assert(self.outgoing@.take(self.outgoing@.len() as int) =~= self.outgoing@);
        }
        // Implementation relations: no repair, read-only.
        let ghost f_irel = |es: Seq<Edge>, r: (SymbolLocation, Vec<SymbolLocation>)| impl_rel_step(
            es,
            acc_files,
            disp,
            r,
        );
        let ghost impl_base = edges@;
        let mut k: usize = 0;
        proof {
            assert(self.interfaces@.take(0) =~= Seq::<(SymbolLocation, Vec<SymbolLocation>)>::empty());
        }
        while k < self.interfaces.len()
            invariant
                k <= self.interfaces@.len(),
                self.wf(),
                render_frame(*old(self), *self),
                acc_files == self.files_view(),
                fold_steps(impl_base, self.interfaces@.take(k as int), f_irel) == edges@,
            decreases self.interfaces@.len() - k,
        {
            let ghost e_entry = edges@;
            let ghost rel = self.interfaces@[k as int];
            let to_file = find_file_in(&self.files, self.interfaces[k].0.path.as_str());
            match to_file {
                Option::None => {},
                Option::Some(fi) => {
                    let to = NodeId {
                        file_id: self.files[fi].id,
                        line: self.interfaces[k].0.line,
                        character: self.interfaces[k].0.character,
                    };
                    if ids_contain(disp_vec, to) {
                        let ghost f_il = |es: Seq<Edge>, l: SymbolLocation| impl_loc_step(
                            es,
                            acc_files,
                            disp,
                            to,
                            l,
                        );
                        let ghost locs = self.interfaces@[k as int].1@;
                        let mut c: usize = 0;
                        proof {
                            assert(locs.take(0) =~= Seq::<SymbolLocation>::empty());
                        }
                        while c < self.interfaces[k].1.len()
                            invariant
                                k < self.interfaces@.len(),
                                c <= locs.len(),
                                locs == self.interfaces@[k as int].1@,
                                self.wf(),
                                render_frame(*old(self), *self),
                                acc_files == self.files_view(),
                                fold_steps(e_entry, locs.take(c as int), f_il) == edges@,
                            decreases locs.len() - c,
                        {
                            let ghost cur = edges@;
                            let ghost loc = locs[c as int];
                            let from_file = find_file_in(
                                &self.files,
                                self.interfaces[k].1[c].path.as_str(),
                            );
                            match from_file {
                                Option::None => {},
                                Option::Some(fj) => {
                                    let from = NodeId {
                                        file_id: self.files[fj].id,
                                        line: self.interfaces[k].1[c].line,
                                        character: self.interfaces[k].1[c].character,
                                    };
                                    if ids_contain(disp_vec, from) {
                                        edges_push(
                                            &mut edges,
                                            Edge { from, to, kind: EdgeKind::Impl },
                                        );
                                    }
                                },
                            }
                            c = c + 1;
                            proof {
                                assert(locs.take(c as int) =~= locs.take(c - 1).push(locs[c - 1]));
                                lemma_fold_steps_push(e_entry, locs.take(c - 1), locs[c - 1], f_il);
                                assert(impl_loc_step(cur, acc_files, disp, to, loc) == edges@);
                            }
                        }
                        proof {
                            assert(locs.take(locs.len() as int) =~= locs);
                        }
                    }
                },
            }
            k = k + 1;
            proof {
                assert(self.interfaces@.take(k as int) =~= self.interfaces@.take(k - 1).push(rel));
                lemma_fold_steps_push(impl_base, self.interfaces@.take(k - 1), rel, f_irel);
                assert(impl_rel_step(e_entry, acc_files, disp, rel) == edges@);
            }
        }
        proof {
            assert(self.interfaces@.take(self.interfaces@.len() as int) =~= self.interfaces@);
            assert(edges@ == old(self).spec_render_edges());
        }
        edges
    }
}

// ---------------------------------------------------------------------------
// Directory clusters
// ---------------------------------------------------------------------------

/// The model of the directory-group list: each group is a directory path and
/// the id strings of the files directly inside it.
pub open spec fn groups_view(gs: Seq<(String, Vec<String>)>) -> Seq<(Seq<char>, Seq<Seq<char>>)> {
    gs.map_values(|g: (String, Vec<String>)| (g.0@, strings_view(g.1@)))
}

/// Inserting one file into the directory-group list: groups are kept in
/// ascending directory order, and a file lands at the end of its directory's
/// member list.
pub open spec fn group_insert(
    gs: Seq<(Seq<char>, Seq<Seq<char>>)>,
    dir: Seq<char>,
    node: Seq<char>,
) -> Seq<(Seq<char>, Seq<Seq<char>>)>
    decreases gs.len(),
{
    if gs.len() == 0 {
        seq![(dir, seq![node])]
    } else if gs[0].0 == dir {
        seq![(dir, gs[0].1.push(node))] + gs.skip(1)
    } else if seq_char_le(dir, gs[0].0) {
        seq![(dir, seq![node])] + gs
    } else {
        seq![gs[0]] + group_insert(gs.skip(1), dir, node)
    }
}

/// The directory groups of the stored files: every file under its parent
/// directory, directories in ascending order, files in id order.
pub open spec fn spec_dir_groups(files: Seq<OutlineView>) -> Seq<(Seq<char>, Seq<Seq<char>>)> {
    fold_steps(
        Seq::empty(),
        files,
        |gs: Seq<(Seq<char>, Seq<Seq<char>>)>, f: OutlineView| group_insert(
            gs,
            spec_parent_dir(f.path),
            spec_dec(f.id as int),
        ),
    )
}

/// When the first `i` groups neither hold `dir` nor come after it, the
/// insertion happens at `i`.
proof fn lemma_group_insert_at(
    gs: Seq<(Seq<char>, Seq<Seq<char>>)>,
    dir: Seq<char>,
    node: Seq<char>,
    i: int,
)
    requires
        0 <= i <= gs.len(),
        forall|j: int| 0 <= j < i ==> (#[trigger] gs[j]).0 != dir && !seq_char_le(dir, gs[j].0),
    ensures
        i == gs.len() ==> group_insert(gs, dir, node) == gs.push((dir, seq![node])),
        i < gs.len() && gs[i].0 == dir ==> group_insert(gs, dir, node) == gs.update(
            i,
            (dir, gs[i].1.push(node)),
        ),
        i < gs.len() && gs[i].0 != dir && seq_char_le(dir, gs[i].0) ==> group_insert(gs, dir, node)
            == gs.insert(i, (dir, seq![node])),
    decreases i,
{
    if i == 0 {
        if gs.len() == 0 {
            assert(group_insert(gs, dir, node) =~= gs.push((dir, seq![node])));
        } else if gs[0].0 == dir {
            assert(seq![(dir, gs[0].1.push(node))] + gs.skip(1) =~= gs.update(
                0,
                (dir, gs[0].1.push(node)),
            ));
        } else if seq_char_le(dir, gs[0].0) {
            assert(seq![(dir, seq![node])] + gs =~= gs.insert(0, (dir, seq![node])));
        }
    } else {
        assert(gs.len() > 0);
        assert(gs[0].0 != dir && !seq_char_le(dir, gs[0].0));
        assert forall|j: int| 0 <= j < i - 1 implies (#[trigger] gs.skip(1)[j]).0 != dir
            && !seq_char_le(dir, gs.skip(1)[j].0) by {
            assert(gs.skip(1)[j] == gs[j + 1]);
        }
        lemma_group_insert_at(gs.skip(1), dir, node, i - 1);
        if i == gs.len() {
            assert(group_insert(gs, dir, node) =~= gs.push((dir, seq![node])));
        } else if gs[i].0 == dir {
            assert(gs.skip(1)[i - 1] == gs[i]);
            assert(group_insert(gs, dir, node) =~= gs.update(i, (dir, gs[i].1.push(node))));
        } else if seq_char_le(dir, gs[i].0) {
            assert(gs.skip(1)[i - 1] == gs[i]);
            assert(group_insert(gs, dir, node) =~= gs.insert(i, (dir, seq![node])));
        }
    }
}

/// Inserts one file's id string under its directory in the group list.
#[verifier::loop_isolation(false)]
fn group_insert_exec(gs: &mut Vec<(String, Vec<String>)>, dir: String, node: String)
    ensures
        groups_view(final(gs)@) == group_insert(groups_view(old(gs)@), dir@, node@),
{
    let ghost gv = groups_view(old(gs)@);
    let mut j: usize = 0;
    while j < gs.len()
        invariant
            j <= gs@.len(),
            gs@ == old(gs)@,
            gv == groups_view(gs@),
            gv.len() == gs@.len(),
            forall|m: int| 0 <= m < gs@.len() ==> (#[trigger] gv[m]) == (
                gs@[m].0@,
                strings_view(gs@[m].1@),
            ),
            forall|m: int| 0 <= m < j ==> (#[trigger] gv[m]).0 != dir@ && !seq_char_le(
                dir@,
                gv[m].0,
            ),
        decreases gs@.len() - j,
    {
        let is_eq = str_eq_str(gs[j].0.as_str(), dir.as_str());
        if is_eq {
            proof {
                lemma_group_insert_at(gv, dir@, node@, j as int);
            }
            let taken = gs.remove(j);
            let (key, mut members) = taken;
            members.push(node);
            gs.insert(j, (key, members));
            proof {
                assert(gs@ =~= old(gs)@.update(j as int, gs@[j as int]));
                assert(gs@[j as int].0@ == dir@);
                assert(strings_view(gs@[j as int].1@) =~= gv[j as int].1.push(node@));
                assert(groups_view(gs@) =~= gv.update(
                    j as int,
                    (dir@, gv[j as int].1.push(node@)),
                ));
            }
            return ;
        }
        let after = str_le(dir.as_str(), gs[j].0.as_str());
        if after {
            proof {
                lemma_group_insert_at(gv, dir@, node@, j as int);
            }
            let mut members: Vec<String> = Vec::new();
            members.push(node);
            gs.insert(j, (dir, members));
            proof {
                assert(strings_view(gs@[j as int].1@) =~= seq![node@]);
                assert(groups_view(gs@) =~= gv.insert(j as int, (dir@, seq![node@])));
            }
            return ;
        }
        j = j + 1;
    }
    proof {
        lemma_group_insert_at(gv, dir@, node@, gs@.len() as int);
    }
    let mut members: Vec<String> = Vec::new();
    members.push(node);
    gs.push((dir, members));
    proof {
        assert(strings_view(gs@.last().1@) =~= seq![node@]);
        assert(groups_view(gs@) =~= gv.push((dir@, seq![node@])));
    }
}

/// Builds the directory-group list of the stored files.
#[verifier::loop_isolation(false)]
fn build_dir_groups(files: &Vec<FileOutline>) -> (gs: Vec<(String, Vec<String>)>)
    ensures
        groups_view(gs@) == spec_dir_groups(files@.map_values(|f: FileOutline| outline_view(f))),
{
    let ghost fv = files@.map_values(|f: FileOutline| outline_view(f));
    let ghost f_step = |gs: Seq<(Seq<char>, Seq<Seq<char>>)>, f: OutlineView| group_insert(
        gs,
        spec_parent_dir(f.path),
        spec_dec(f.id as int),
    );
    let mut gs: Vec<(String, Vec<String>)> = Vec::new();
    let mut i: usize = 0;
    proof {
        assert(fv.take(0) =~= Seq::<OutlineView>::empty());
        assert(groups_view(gs@) =~= fold_steps(
            Seq::<(Seq<char>, Seq<Seq<char>>)>::empty(),
            fv.take(0),
            f_step,
        ));
    }
    while i < files.len()
        invariant
            i <= files@.len(),
            groups_view(gs@) == fold_steps(
                Seq::<(Seq<char>, Seq<Seq<char>>)>::empty(),
                fv.take(i as int),
                f_step,
            ),
        decreases files@.len() - i,
    {
        let ghost pre = groups_view(gs@);
        let dir = parent_dir(files[i].path.as_str());
        let node = u32_string(files[i].id);
        group_insert_exec(&mut gs, dir, node);
        i = i + 1;
        proof {
            assert(fv.take(i as int) =~= fv.take(i - 1).push(fv[i - 1]));
            lemma_fold_steps_push(
                Seq::<(Seq<char>, Seq<Seq<char>>)>::empty(),
                fv.take(i - 1),
                fv[i - 1],
                f_step,
            );
            assert(fv[i - 1] == outline_view(files@[i - 1]));
            assert(groups_view(gs@) == f_step(pre, fv[i - 1]));
        }
    }
    proof {
        assert(fv.take(files@.len() as int) =~= fv);
    }
    gs
}

/// The first existing cluster whose title is a component prefix of `dir`.
pub open spec fn find_ancestor(gs: Seq<SubgraphView>, dir: Seq<char>) -> Option<int>
    decreases gs.len(),
{
    if gs.len() == 0 {
        Option::None
    } else if spec_path_starts_with(dir, gs[0].title) {
        Option::Some(0int)
    } else {
        match find_ancestor(gs.skip(1), dir) {
            Option::None => Option::None,
            Option::Some(i) => Option::Some(i + 1),
        }
    }
}

/// A found ancestor index is in bounds and its title is a prefix of `dir`.
pub proof fn lemma_find_ancestor(gs: Seq<SubgraphView>, dir: Seq<char>)
    ensures
        match find_ancestor(gs, dir) {
            Option::Some(i) => 0 <= i < gs.len() && spec_path_starts_with(dir, gs[i].title),
            Option::None => forall|j: int|
                0 <= j < gs.len() ==> !spec_path_starts_with(dir, (#[trigger] gs[j]).title),
        },
    decreases gs.len(),
{
    if gs.len() > 0 && !spec_path_starts_with(dir, gs[0].title) {
        lemma_find_ancestor(gs.skip(1), dir);
        match find_ancestor(gs.skip(1), dir) {
            Option::Some(i) => {
                assert(gs.skip(1)[i] == gs[i + 1]);
            },
            Option::None => {
                assert forall|j: int| 0 <= j < gs.len() implies !spec_path_starts_with(
                    dir,
                    (#[trigger] gs[j]).title,
                ) by {
                    if j > 0 {
                        assert(gs.skip(1)[j - 1] == gs[j]);
                        assert(!spec_path_starts_with(dir, gs.skip(1)[j - 1].title));
                    }
                }
            },
        }
    }
}

/// When no cluster before `i` is an ancestor and the one at `i` is, the find
/// lands on `i`.
proof fn lemma_find_ancestor_prefix(gs: Seq<SubgraphView>, dir: Seq<char>, i: int)
    requires
        0 <= i < gs.len(),
        spec_path_starts_with(dir, gs[i].title),
        forall|j: int| 0 <= j < i ==> !spec_path_starts_with(dir, (#[trigger] gs[j]).title),
    ensures
        find_ancestor(gs, dir) == Option::Some(i),
    decreases i,
{
    if i > 0 {
        assert(gs.skip(1)[i - 1] == gs[i]);
        assert forall|j: int| 0 <= j < i - 1 implies !spec_path_starts_with(
            dir,
            (#[trigger] gs.skip(1)[j]).title,
        ) by {
            assert(gs.skip(1)[j] == gs[j + 1]);
            assert(!spec_path_starts_with(dir, gs[j + 1].title));
        }
        lemma_find_ancestor_prefix(gs.skip(1), dir, i - 1);
    }
}

/// Adding one directory group to the cluster forest.  The group nests into
/// the first cluster whose title is a component prefix of its directory,
/// recursively, with the matched prefix stripped; with no ancestor at some
/// level a new cluster is made there.
pub open spec fn spec_add_subgraph(
    gs: Seq<SubgraphView>,
    dir: Seq<char>,
    nodes: Seq<Seq<char>>,
) -> Seq<SubgraphView>
    decreases sg_forest_height(gs),
        via spec_add_subgraph_decreases
{
    match find_ancestor(gs, dir) {
        Option::None => gs.push(SubgraphView { title: dir, nodes, subgraphs: Seq::empty() }),
        Option::Some(i) => {
            if 0 <= i < gs.len() {
                gs.update(
                    i,
                    SubgraphView {
                        subgraphs: spec_add_subgraph(
                            gs[i].subgraphs,
                            spec_strip_prefix(dir, gs[i].title),
                            nodes,
                        ),
                        ..gs[i]
                    },
                )
            } else {
                gs
            }
        },
    }
}

#[via_fn]
proof fn spec_add_subgraph_decreases(gs: Seq<SubgraphView>, dir: Seq<char>, nodes: Seq<Seq<char>>) {
    match find_ancestor(gs, dir) {
        Option::Some(i) => {
            if 0 <= i < gs.len() {
                lemma_sg_forest_height_mem(gs, i);
            }
        },
        Option::None => {},
    }
}

/// The directory a group is titled by: its path relative to the project
/// root, or the path itself when it does not lie under the root.
pub open spec fn spec_strip_root(dir: Seq<char>, root: Seq<char>) -> Seq<char> {
    if spec_path_starts_with(dir, root) {
        spec_strip_prefix(dir, root)
    } else {
        dir
    }
}

/// One directory group added to the cluster forest, relative to the root.
pub open spec fn add_group_step(
    gs: Seq<SubgraphView>,
    root: Seq<char>,
    grp: (Seq<char>, Seq<Seq<char>>),
) -> Seq<SubgraphView> {
    spec_add_subgraph(gs, spec_strip_root(grp.0, root), grp.1)
}

/// The cluster forest of the stored files: one group per parent directory in
/// ascending order, each nested under the first cluster whose title prefixes
/// its root-relative directory.
pub open spec fn spec_subgraphs(files: Seq<OutlineView>, root: Seq<char>) -> Seq<SubgraphView> {
    fold_steps(
        Seq::empty(),
        spec_dir_groups(files),
        |gs: Seq<SubgraphView>, grp: (Seq<char>, Seq<Seq<char>>)| add_group_step(gs, root, grp),
    )
}

/// Copies a list of strings.
fn clone_string_vec(v: &Vec<String>) -> (r: Vec<String>)
    ensures
        r@ == v@,
{
    let mut r: Vec<String> = Vec::new();
    let mut i: usize = 0;
    while i < v.len()
        invariant
            i <= v@.len(),
            r@ == v@.take(i as int),
        decreases v@.len() - i,
    {
        r.push(v[i].clone());
        i = i + 1;
        proof {
            assert(r@ =~= v@.take(i as int));
        }
    }
    proof {
        assert(v@.take(v@.len() as int) =~= v@);
    }
    r
}

/// Places one directory group into the cluster forest, nesting it under the
/// first cluster whose title is a component prefix of its directory.
#[verifier::loop_isolation(false)]
fn add_subgraph(dir: String, nodes: Vec<String>, subgraphs: &mut Vec<Subgraph>)
    ensures
        subgraphs_view(final(subgraphs)@) == spec_add_subgraph(
            subgraphs_view(old(subgraphs)@),
            dir@,
            strings_view(nodes@),
        ),
    decreases sg_forest_height(subgraphs_view(subgraphs@)),
{
    broadcast use lemma_subgraphs_view_index;

    let ghost gv = subgraphs_view(subgraphs@);
    let ghost nv = strings_view(nodes@);
    let mut j: usize = 0;
    while j < subgraphs.len()
        invariant
            j <= subgraphs@.len(),
            subgraphs@ == old(subgraphs)@,
            forall|m: int| 0 <= m < j ==> !spec_path_starts_with(dir@, (#[trigger] gv[m]).title),
        decreases subgraphs@.len() - j,
    {
        let anc = path_starts_with(dir.as_str(), subgraphs[j].title.as_str());
        if anc {
            proof {
                assert(gv[j as int] == subgraph_view(subgraphs@[j as int]));
                lemma_find_ancestor_prefix(gv, dir@, j as int);
                lemma_sg_forest_height_mem(gv, j as int);
            }
            let stripped = strip_prefix_or(dir.as_str(), subgraphs[j].title.as_str());
            let ghost pred = gv[j as int];
            add_subgraph(stripped, nodes, &mut subgraphs[j].subgraphs);
            proof {
                assert(subgraphs@ == old(subgraphs)@.update(j as int, subgraphs@[j as int]));
                assert(subgraph_view(subgraphs@[j as int]) == SubgraphView {
                    subgraphs: subgraphs_view(subgraphs@[j as int].subgraphs@),
                    ..pred
                });
                assert(subgraphs_view(subgraphs@) =~= gv.update(
                    j as int,
                    SubgraphView {
                        subgraphs: spec_add_subgraph(
                            pred.subgraphs,
                            spec_strip_prefix(dir@, pred.title),
                            nv,
                        ),
                        ..pred
                    },
                ));
            }
            return ;
        }
        j = j + 1;
    }
    proof {
        lemma_find_ancestor(gv, dir@);
        assert(find_ancestor(gv, dir@) is None) by {
            if find_ancestor(gv, dir@) is Some {
                let i = find_ancestor(gv, dir@)->Some_0;
                assert(spec_path_starts_with(dir@, gv[i].title));
            }
        }
    }
    subgraphs.push(Subgraph { title: dir, nodes, subgraphs: Vec::new() });
    proof {
        assert(subgraph_view(subgraphs@.last()) == SubgraphView {
            title: dir@,
            nodes: nv,
            subgraphs: Seq::empty(),
        });
        assert(subgraphs_view(subgraphs@) =~= gv.push(
            SubgraphView { title: dir@, nodes: nv, subgraphs: Seq::empty() },
        ));
    }
}

impl GraphGenerator {
    /// Builds the directory-cluster forest of the files now stored.
    #[verifier::loop_isolation(false)]
    pub fn subgraphs(&self) -> (r: Vec<Subgraph>)
        ensures
            subgraphs_view(r@) == spec_subgraphs(self.files_view(), self.root_view()),
    {
        let ghost groups = spec_dir_groups(self.files_view());
        let ghost rootv = self.root@;
        let ghost f_step = |gs: Seq<SubgraphView>, grp: (Seq<char>, Seq<Seq<char>>)|
            add_group_step(gs, rootv, grp);
        let dir_groups = build_dir_groups(&self.files);
        let mut sgs: Vec<Subgraph> = Vec::new();
        let mut g: usize = 0;
        proof {
            assert(groups_view(dir_groups@) == groups);
            assert(groups.take(0) =~= Seq::<(Seq<char>, Seq<Seq<char>>)>::empty());
            assert(subgraphs_view(sgs@) =~= fold_steps(
                Seq::<SubgraphView>::empty(),
                groups.take(0),
                f_step,
            ));
        }
        while g < dir_groups.len()
            invariant
                g <= dir_groups@.len(),
                groups == groups_view(dir_groups@),
                groups.len() == dir_groups@.len(),
                forall|m: int| 0 <= m < dir_groups@.len() ==> (#[trigger] groups[m]) == (
                    dir_groups@[m].0@,
                    strings_view(dir_groups@[m].1@),
                ),
                subgraphs_view(sgs@) == fold_steps(
                    Seq::<SubgraphView>::empty(),
                    groups.take(g as int),
                    f_step,
                ),
            decreases dir_groups@.len() - g,
        {
            let ghost pre = subgraphs_view(sgs@);
            let dir = strip_prefix_or(dir_groups[g].0.as_str(), self.root.as_str());
            let nodes = clone_string_vec(&dir_groups[g].1);
            proof {
                assert(dir@ == spec_strip_root(groups[g as int].0, self.root@));
                assert(strings_view(nodes@) == groups[g as int].1);
            }
            add_subgraph(dir, nodes, &mut sgs);
            g = g + 1;
            proof {
                assert(groups.take(g as int) =~= groups.take(g - 1).push(groups[g - 1]));
                lemma_fold_steps_push(
                    Seq::<SubgraphView>::empty(),
                    groups.take(g - 1),
                    groups[g - 1],
                    f_step,
                );
                assert(f_step(pre, groups[g - 1]) == add_group_step(pre, rootv, groups[g - 1]));
                assert(subgraphs_view(sgs@) == spec_add_subgraph(pre, dir@, strings_view(nodes@)));
                assert(dir@ == spec_strip_root(groups[g - 1].0, self.root@));
                assert(strings_view(nodes@) == groups[g - 1].1);
                assert(subgraphs_view(sgs@) == f_step(pre, groups[g - 1]));
            }
        }
        proof {
            assert(groups.take(dir_groups@.len() as int) =~= groups);
        }
        sgs
    }
}

// ---------------------------------------------------------------------------
// Mermaid rendering
// ---------------------------------------------------------------------------

/// The models of an index list.
pub open spec fn idxs_view(s: Seq<usize>) -> Seq<int> {
    s.map_values(|u: usize| u as int)
}

/// Inserting one file index into the index-keyed directory-group list.
pub open spec fn group_insert_idx(
    gs: Seq<(Seq<char>, Seq<int>)>,
    dir: Seq<char>,
    node: int,
) -> Seq<(Seq<char>, Seq<int>)>
    decreases gs.len(),
{
    if gs.len() == 0 {
        seq![(dir, seq![node])]
    } else if gs[0].0 == dir {
        seq![(dir, gs[0].1.push(node))] + gs.skip(1)
    } else if seq_char_le(dir, gs[0].0) {
        seq![(dir, seq![node])] + gs
    } else {
        seq![gs[0]] + group_insert_idx(gs.skip(1), dir, node)
    }
}

/// The index-keyed directory groups of the stored files: every file index
/// under its parent directory, directories ascending, files in id order.
pub open spec fn spec_dir_groups_idx(files: Seq<OutlineView>) -> Seq<(Seq<char>, Seq<int>)> {
    fold_steps(
        Seq::empty(),
        Seq::new(files.len(), |i: int| i),
        |gs: Seq<(Seq<char>, Seq<int>)>, i: int| group_insert_idx(
            gs,
            spec_parent_dir(files[i].path),
            i,
        ),
    )
}

/// The model of the index-keyed group list.
pub open spec fn groups_idx_view(gs: Seq<(String, Vec<usize>)>) -> Seq<(Seq<char>, Seq<int>)> {
    gs.map_values(|g: (String, Vec<usize>)| (g.0@, idxs_view(g.1@)))
}

proof fn lemma_group_insert_idx_at(
    gs: Seq<(Seq<char>, Seq<int>)>,
    dir: Seq<char>,
    node: int,
    i: int,
)
    requires
        0 <= i <= gs.len(),
        forall|j: int| 0 <= j < i ==> (#[trigger] gs[j]).0 != dir && !seq_char_le(dir, gs[j].0),
    ensures
        i == gs.len() ==> group_insert_idx(gs, dir, node) == gs.push((dir, seq![node])),
        i < gs.len() && gs[i].0 == dir ==> group_insert_idx(gs, dir, node) == gs.update(
            i,
            (dir, gs[i].1.push(node)),
        ),
        i < gs.len() && gs[i].0 != dir && seq_char_le(dir, gs[i].0) ==> group_insert_idx(
            gs,
            dir,
            node,
        ) == gs.insert(i, (dir, seq![node])),
    decreases i,
{
    if i == 0 {
        if gs.len() == 0 {
            assert(group_insert_idx(gs, dir, node) =~= gs.push((dir, seq![node])));
        } else if gs[0].0 == dir {
            assert(seq![(dir, gs[0].1.push(node))] + gs.skip(1) =~= gs.update(
                0,
                (dir, gs[0].1.push(node)),
            ));
        } else if seq_char_le(dir, gs[0].0) {
            assert(seq![(dir, seq![node])] + gs =~= gs.insert(0, (dir, seq![node])));
        }
    } else {
        assert(gs[0].0 != dir && !seq_char_le(dir, gs[0].0));
        assert forall|j: int| 0 <= j < i - 1 implies (#[trigger] gs.skip(1)[j]).0 != dir
            && !seq_char_le(dir, gs.skip(1)[j].0) by {
            assert(gs.skip(1)[j] == gs[j + 1]);
        }
        lemma_group_insert_idx_at(gs.skip(1), dir, node, i - 1);
        if i == gs.len() {
            assert(group_insert_idx(gs, dir, node) =~= gs.push((dir, seq![node])));
        } else if gs[i].0 == dir {
            assert(gs.skip(1)[i - 1] == gs[i]);
            assert(group_insert_idx(gs, dir, node) =~= gs.update(i, (dir, gs[i].1.push(node))));
        } else if seq_char_le(dir, gs[i].0) {
            assert(gs.skip(1)[i - 1] == gs[i]);
            assert(group_insert_idx(gs, dir, node) =~= gs.insert(i, (dir, seq![node])));
        }
    }
}

/// Inserts one file index under its directory in the index-keyed group list.
#[verifier::loop_isolation(false)]
fn group_insert_idx_exec(gs: &mut Vec<(String, Vec<usize>)>, dir: String, node: usize, bound: usize)
    requires
        node < bound,
        forall|g: int, m: int|
            0 <= g < old(gs)@.len() && 0 <= m < (#[trigger] old(gs)@[g]).1@.len() ==> (
            #[trigger] old(gs)@[g].1@[m]) < bound,
    ensures
        groups_idx_view(final(gs)@) == group_insert_idx(groups_idx_view(old(gs)@), dir@, node as int),
        forall|g: int, m: int|
            0 <= g < final(gs)@.len() && 0 <= m < (#[trigger] final(gs)@[g]).1@.len() ==> (
            #[trigger] final(gs)@[g].1@[m]) < bound,
{
    let ghost gv = groups_idx_view(old(gs)@);
    let mut j: usize = 0;
    while j < gs.len()
        invariant
            j <= gs@.len(),
            gs@ == old(gs)@,
            gv == groups_idx_view(gs@),
            gv.len() == gs@.len(),
            forall|m: int| 0 <= m < gs@.len() ==> (#[trigger] gv[m]) == (
                gs@[m].0@,
                idxs_view(gs@[m].1@),
            ),
            forall|m: int| 0 <= m < j ==> (#[trigger] gv[m]).0 != dir@ && !seq_char_le(
                dir@,
                gv[m].0,
            ),
        decreases gs@.len() - j,
    {
        let is_eq = str_eq_str(gs[j].0.as_str(), dir.as_str());
        if is_eq {
            proof {
                lemma_group_insert_idx_at(gv, dir@, node as int, j as int);
            }
            let taken = gs.remove(j);
            let (key, mut members) = taken;
            members.push(node);
            gs.insert(j, (key, members));
            proof {
                assert(gs@ =~= old(gs)@.update(j as int, gs@[j as int]));
                assert(idxs_view(gs@[j as int].1@) =~= gv[j as int].1.push(node as int));
                assert(groups_idx_view(gs@) =~= gv.update(
                    j as int,
                    (dir@, gv[j as int].1.push(node as int)),
                ));
            }
            return ;
        }
        let after = str_le(dir.as_str(), gs[j].0.as_str());
        if after {
            proof {
                lemma_group_insert_idx_at(gv, dir@, node as int, j as int);
            }
            let mut members: Vec<usize> = Vec::new();
            members.push(node);
            gs.insert(j, (dir, members));
            proof {
                assert(idxs_view(gs@[j as int].1@) =~= seq![node as int]);
                assert(groups_idx_view(gs@) =~= gv.insert(j as int, (dir@, seq![node as int])));
            }
            return ;
        }
        j = j + 1;
    }
    proof {
        lemma_group_insert_idx_at(gv, dir@, node as int, gs@.len() as int);
    }
    let mut members: Vec<usize> = Vec::new();
    members.push(node);
    gs.push((dir, members));
    proof {
        assert(idxs_view(gs@.last().1@) =~= seq![node as int]);
        assert(groups_idx_view(gs@) =~= gv.push((dir@, seq![node as int])));
    }
}

/// Builds the index-keyed directory groups of the stored files.
#[verifier::loop_isolation(false)]
fn build_dir_groups_idx(files: &Vec<FileOutline>) -> (gs: Vec<(String, Vec<usize>)>)
    ensures
        groups_idx_view(gs@) == spec_dir_groups_idx(
            files@.map_values(|f: FileOutline| outline_view(f)),
        ),
        forall|g: int, m: int|
            0 <= g < gs@.len() && 0 <= m < (#[trigger] gs@[g]).1@.len()
                ==> (#[trigger] gs@[g].1@[m]) < files@.len(),
{
    let ghost fv = files@.map_values(|f: FileOutline| outline_view(f));
    let ghost idxs = Seq::new(fv.len(), |i: int| i);
    let ghost f_step = |gs: Seq<(Seq<char>, Seq<int>)>, i: int| group_insert_idx(
        gs,
        spec_parent_dir(fv[i].path),
        i,
    );
    let mut gs: Vec<(String, Vec<usize>)> = Vec::new();
    let mut i: usize = 0;
    proof {
        assert(idxs.take(0) =~= Seq::<int>::empty());
        assert(groups_idx_view(gs@) =~= fold_steps(
            Seq::<(Seq<char>, Seq<int>)>::empty(),
            idxs.take(0),
            f_step,
        ));
    }
    while i < files.len()
        invariant
            i <= files@.len(),
            groups_idx_view(gs@) == fold_steps(
                Seq::<(Seq<char>, Seq<int>)>::empty(),
                idxs.take(i as int),
                f_step,
            ),
            forall|g: int, m: int|
                0 <= g < gs@.len() && 0 <= m < (#[trigger] gs@[g]).1@.len()
                    ==> (#[trigger] gs@[g].1@[m]) < files@.len(),
        decreases files@.len() - i,
    {
        let ghost pre = groups_idx_view(gs@);
        let dir = parent_dir(files[i].path.as_str());
        group_insert_idx_exec(&mut gs, dir, i, files.len());
        i = i + 1;
        proof {
            assert(idxs.take(i as int) =~= idxs.take(i - 1).push(i - 1));
            lemma_fold_steps_push(
                Seq::<(Seq<char>, Seq<int>)>::empty(),
                idxs.take(i - 1),
                i - 1 as int,
                f_step,
            );
            assert(fv[i - 1] == outline_view(files@[i - 1]));
            assert(groups_idx_view(gs@) == f_step(pre, i - 1));
        }
    }
    proof {
        assert(idxs.take(files@.len() as int) =~= idxs);
    }
    gs
}

/// A Mermaid node id: `fileId_line_character`.
pub open spec fn mm_id(tid: u32, line: u32, character: u32) -> Seq<char> {
    spec_dec(tid as int) + "_"@ + spec_dec(line as int) + "_"@ + spec_dec(character as int)
}

/// One Mermaid node line per cell, its nested cells following; a marked
/// cell carries the `highlight` class.
pub open spec fn mm_cell_text(tid: u32, c: CellView) -> Seq<char>
    decreases cell_height(c), 0int,
        via mm_cell_text_decreases
{
    "    "@ + mm_id(tid, c.range_start.line, c.range_start.character) + "[\""@
        + spec_escape_mermaid(c.title) + "\"]"@ + (if c.highlighted {
        ":::highlight\n"@
    } else {
        "\n"@
    }) + mm_cells_text(tid, c.children)
}

/// The node lines of a cell list, in order.
pub open spec fn mm_cells_text(tid: u32, cs: Seq<CellView>) -> Seq<char>
    decreases cells_height(cs), cs.len(),
        via mm_cells_text_decreases
{
    if cs.len() == 0 {
        Seq::empty()
    } else {
        mm_cells_text(tid, cs.drop_last()) + mm_cell_text(tid, cs.last())
    }
}

#[via_fn]
proof fn mm_cell_text_decreases(tid: u32, c: CellView) {
}

#[via_fn]
proof fn mm_cells_text_decreases(tid: u32, cs: Seq<CellView>) {
    if cs.len() > 0 {
        lemma_cells_height_mem(cs, cs.len() - 1);
    }
}

/// One file group: a nested subgraph titled by the root-relative file path,
/// holding the file's cells.
pub open spec fn mm_file_text(di: int, fi: int, title: Seq<char>, t: TableView) -> Seq<char> {
    "        subgraph file"@ + spec_dec(di) + "_"@ + spec_dec(fi) + " [\""@ + title + "\"]\n"@
        + mm_cells_text(t.id, t.sections) + "        end\n"@
}

/// The file groups of one directory group, in member order.
pub open spec fn mm_files_upto(
    members: Seq<int>,
    files: Seq<OutlineView>,
    tables: Seq<TableView>,
    root: Seq<char>,
    di: int,
    n: int,
) -> Seq<char>
    decreases n,
{
    if n <= 0 {
        Seq::empty()
    } else {
        mm_files_upto(members, files, tables, root, di, n - 1) + mm_file_text(
            di,
            n - 1,
            spec_strip_root(files[members[n - 1]].path, root),
            tables[members[n - 1]],
        )
    }
}

/// A directory group's title: root-relative, always starting with `/`.
pub open spec fn mm_dir_title(dir: Seq<char>, root: Seq<char>) -> Seq<char> {
    if dir.len() == 0 {
        "/"@
    } else {
        let r = spec_strip_root(dir, root);
        if r.len() == 0 {
            "/"@
        } else {
            "/"@ + r
        }
    }
}

/// One directory group: a subgraph holding one nested subgraph per file.
pub open spec fn mm_dir_text(
    grp: (Seq<char>, Seq<int>),
    files: Seq<OutlineView>,
    tables: Seq<TableView>,
    root: Seq<char>,
    di: int,
) -> Seq<char> {
    "    subgraph dir"@ + spec_dec(di) + " [\""@ + mm_dir_title(grp.0, root) + "\"]\n"@
        + mm_files_upto(grp.1, files, tables, root, di, grp.1.len() as int) + "    end\n"@
}

/// The directory groups, in order.
pub open spec fn mm_dirs_upto(
    groups: Seq<(Seq<char>, Seq<int>)>,
    files: Seq<OutlineView>,
    tables: Seq<TableView>,
    root: Seq<char>,
    n: int,
) -> Seq<char>
    decreases n,
{
    if n <= 0 {
        Seq::empty()
    } else {
        mm_dirs_upto(groups, files, tables, root, n - 1) + mm_dir_text(
            groups[n - 1],
            files,
            tables,
            root,
            n - 1,
        )
    }
}

/// One Mermaid edge line.
pub open spec fn mm_edge_text(e: Edge) -> Seq<char> {
    "    "@ + mm_id(e.from.file_id, e.from.line, e.from.character) + " --> "@ + mm_id(
        e.to.file_id,
        e.to.line,
        e.to.character,
    ) + "\n"@
}

/// The edge lines, in order.
pub open spec fn mm_edges_text(es: Seq<Edge>) -> Seq<char>
    decreases es.len(),
{
    if es.len() == 0 {
        Seq::empty()
    } else {
        mm_edges_text(es.drop_last()) + mm_edge_text(es.last())
    }
}

/// The whole Mermaid flowchart: the header, one two-level group per
/// directory, then the edge lines.
pub open spec fn spec_mermaid_source(
    files: Seq<OutlineView>,
    tables: Seq<TableView>,
    root: Seq<char>,
    edges: Seq<Edge>,
) -> Seq<char> {
    let groups = spec_dir_groups_idx(files);
    "flowchart LR\n"@ + mm_dirs_upto(groups, files, tables, root, groups.len() as int)
        + mm_edges_text(edges)
}

fn push_mm_id(out: &mut String, tid: u32, line: u32, character: u32)
    ensures
        final(out)@ == old(out)@ + mm_id(tid, line, character),
{
    push_u32_dec(out, tid);
    out.append("_");
    push_u32_dec(out, line);
    out.append("_");
    push_u32_dec(out, character);
    proof {
        assert(final(out)@ =~= old(out)@ + mm_id(tid, line, character));
    }
}

/// Emits the node line of one cell, and of everything nested in it.
#[verifier::rlimit(60)]
fn push_mm_cell(tid: u32, c: &Cell, out: &mut String)
    ensures
        final(out)@ == old(out)@ + mm_cell_text(tid, cell_view(*c)),
    decreases cell_height(cell_view(*c)), 0int,
{
    broadcast use lemma_cells_view_index;

    let ghost cv = cell_view(*c);
    out.append("    ");
    push_mm_id(out, tid, c.range_start.line, c.range_start.character);
    out.append("[\"");
    let e = escape_mermaid(c.title.as_str());
    out.append(e.as_str());
    out.append("\"]");
    if c.highlighted {
        out.append(":::highlight\n");
    } else {
        out.append("\n");
    }
    let ghost mid = out@;
    proof {
        assert(mid =~= old(out)@ + ("    "@ + mm_id(tid, cv.range_start.line, cv.range_start.character)
            + "[\""@ + spec_escape_mermaid(cv.title) + "\"]"@ + (if cv.highlighted {
            ":::highlight\n"@
        } else {
            "\n"@
        })));
    }
    push_mm_cells(tid, &c.children, out);
    proof {
        assert(final(out)@ =~= old(out)@ + mm_cell_text(tid, cv));
    }
}

/// Emits the node lines of a cell list, in order.
fn push_mm_cells(tid: u32, cs: &Vec<Cell>, out: &mut String)
    ensures
        final(out)@ == old(out)@ + mm_cells_text(tid, cells_view(cs@)),
    decreases cells_height(cells_view(cs@)), cs@.len(), 1int,
{
    broadcast use lemma_cells_view_index;

    let ghost cv = cells_view(cs@);
    let mut i: usize = 0;
    proof {
        assert(cv.take(0) =~= Seq::<CellView>::empty());
        assert(out@ =~= old(out)@ + mm_cells_text(tid, cv.take(0)));
    }
    while i < cs.len()
        invariant
            i <= cs@.len(),
            cv == cells_view(cs@),
            cv.len() == cs@.len(),
            forall|j: int| 0 <= j < cs@.len() ==> cv[j] == cell_view(cs@[j]),
            out@ == old(out)@ + mm_cells_text(tid, cv.take(i as int)),
            cells_height(cv) == cells_height(cells_view(cs@)),
        decreases cs@.len() - i,
    {
        proof {
            lemma_cells_height_mem(cv, i as int);
        }
        push_mm_cell(tid, &cs[i], out);
        i = i + 1;
        proof {
            let t = cv.take(i as int);
            assert(t.drop_last() =~= cv.take(i - 1));
            assert(t.last() == cv[i - 1]);
            assert(out@ =~= old(out)@ + mm_cells_text(tid, cv.take(i as int)));
        }
    }
    proof {
        assert(cv.take(cs@.len() as int) =~= cv);
    }
}

impl GraphGenerator {
    /// Renders the current state as a DOT document.  Rendering re-derives
    /// the edge set each time it runs, and repairs outlines for incoming
    /// callers that a repair can place, so repaired nested symbols appear as
    /// visible nodes.
    pub fn generate_dot_source(&mut self) -> (r: String)
        requires
            old(self).wf(),
        ensures
            final(self).wf(),
            render_frame(*old(self), *final(self)),
            final(self).files_view() == old(self).spec_render_acc().files,
            r@ == crate::graph::dot::spec_dot_source(
                spec_tables(final(self).files_view(), final(self).lang_view(), final(self).highlights_view()),
                old(self).spec_render_edges(),
                spec_subgraphs(final(self).files_view(), final(self).root_view()),
            ),
    {
        let tables = self.build_tables();
        let ids = collect_ids(&tables);
        let edges = self.collect_edges(&ids);
        let tables2 = self.build_tables();
        let subs = self.subgraphs();
        crate::graph::dot::Dot::generate_dot_source(&tables2, &edges, &subs)
    }

    /// Renders the current state as a Mermaid flowchart: one group per
    /// directory, a nested group per file, one node per cell, then the
    /// edges.  Outlines are repaired exactly as for the DOT rendering.
    #[verifier::loop_isolation(false)]
    #[verifier::rlimit(100)]
    pub fn generate_mermaid_source(&mut self) -> (r: String)
        requires
            old(self).wf(),
        ensures
            final(self).wf(),
            render_frame(*old(self), *final(self)),
            final(self).files_view() == old(self).spec_render_acc().files,
            r@ == spec_mermaid_source(
                final(self).files_view(),
                spec_tables(final(self).files_view(), final(self).lang_view(), final(self).highlights_view()),
                final(self).root_view(),
                old(self).spec_render_edges(),
            ),
    {
        let tables = self.build_tables();
        let ids = collect_ids(&tables);
        let edges = self.collect_edges(&ids);
        let tables2 = self.build_tables();
        let groups = build_dir_groups_idx(&self.files);
        let ghost fv = self.files_view();
        let ghost tv = tables_vec_view(tables2@);
        let ghost gv = groups_idx_view(groups@);
        let ghost rootv = self.root@;
        proof {
            assert(tv == spec_tables(fv, self.lang, self.highlights@));
            assert(tv.len() == fv.len());
            assert(gv == spec_dir_groups_idx(fv));
        }
        let mut out = String::new();
        out.append("flowchart LR\n");
        let ghost m0 = out@;
        proof {
            assert(m0 =~= "flowchart LR\n"@);
            assert(out@ =~= m0 + mm_dirs_upto(gv, fv, tv, rootv, 0));
        }
        let mut g: usize = 0;
        while g < groups.len()
            invariant
                g <= groups@.len(),
                out@ == m0 + mm_dirs_upto(gv, fv, tv, rootv, g as int),
            decreases groups@.len() - g,
        {
            proof {
                assert(gv[g as int] == (groups@[g as int].0@, idxs_view(groups@[g as int].1@)));
            }
            push_mm_dir(
                g,
                &groups[g].0,
                &groups[g].1,
                &self.files,
                &tables2,
                self.root.as_str(),
                &mut out,
            );
            g = g + 1;
            proof {
                assert(out@ =~= m0 + mm_dirs_upto(gv, fv, tv, rootv, g as int));
            }
        }
        let ghost m2 = out@;
        proof {
            assert(gv.len() == groups@.len());
            assert(edges@.take(0) =~= Seq::<Edge>::empty());
            assert(out@ =~= m2 + mm_edges_text(edges@.take(0)));
        }
        let mut e: usize = 0;
        while e < edges.len()
            invariant
                e <= edges@.len(),
                out@ == m2 + mm_edges_text(edges@.take(e as int)),
            decreases edges@.len() - e,
        {
            let ed = edges[e];
            out.append("    ");
            push_mm_id(&mut out, ed.from.file_id, ed.from.line, ed.from.character);
            out.append(" --> ");
            push_mm_id(&mut out, ed.to.file_id, ed.to.line, ed.to.character);
            out.append("\n");
            e = e + 1;
            proof {
                let t = edges@.take(e as int);
                assert(t.drop_last() =~= edges@.take(e - 1));
                assert(t.last() == edges@[e - 1]);
                assert(out@ =~= m2 + mm_edges_text(edges@.take(e as int)));
            }
        }
        proof {
            assert(edges@.take(edges@.len() as int) =~= edges@);
            assert(out@ =~= spec_mermaid_source(fv, tv, rootv, edges@));
        }
        out
    }
}

/// Emits one file group of the Mermaid flowchart.
#[verifier::loop_isolation(false)]
#[verifier::rlimit(60)]
fn push_mm_file(
    di: usize,
    fi: usize,
    idx: usize,
    files: &Vec<FileOutline>,
    tables: &Vec<TableNode>,
    root: &str,
    out: &mut String,
)
    requires
        idx < files@.len(),
        tables@.len() == files@.len(),
    ensures
        final(out)@ == old(out)@ + mm_file_text(
            di as int,
            fi as int,
            spec_strip_root(
                files@.map_values(|f: FileOutline| outline_view(f))[idx as int].path,
                root@,
            ),
            tables_vec_view(tables@)[idx as int],
        ),
{
    let ghost fv = files@.map_values(|f: FileOutline| outline_view(f));
    let ghost tv = tables_vec_view(tables@);
    out.append("        subgraph file");
    push_usize_dec(out, di);
    out.append("_");
    push_usize_dec(out, fi);
    out.append(" [\"");
    let title = strip_prefix_or(files[idx].path.as_str(), root);
    out.append(title.as_str());
    out.append("\"]\n");
    proof {
        assert(fv[idx as int] == outline_view(files@[idx as int]));
        assert(out@ =~= old(out)@ + ("        subgraph file"@ + spec_dec(di as int) + "_"@
            + spec_dec(fi as int) + " [\""@ + spec_strip_root(fv[idx as int].path, root@)
            + "\"]\n"@));
        assert(tv[idx as int] == table_view(tables@[idx as int]));
    }
    push_mm_cells(tables[idx].id, &tables[idx].sections, out);
    proof {
        assert(tables@[idx as int].id == tv[idx as int].id);
        assert(cells_view(tables@[idx as int].sections@) == tv[idx as int].sections);
    }
    out.append("        end\n");
    proof {
        assert(final(out)@ =~= old(out)@ + mm_file_text(
            di as int,
            fi as int,
            spec_strip_root(fv[idx as int].path, root@),
            tv[idx as int],
        ));
    }
}

/// Emits one directory group of the Mermaid flowchart.
#[verifier::loop_isolation(false)]
#[verifier::rlimit(100)]
fn push_mm_dir(
    di: usize,
    dir: &String,
    members: &Vec<usize>,
    files: &Vec<FileOutline>,
    tables: &Vec<TableNode>,
    root: &str,
    out: &mut String,
)
    requires
        forall|m: int| 0 <= m < members@.len() ==> (#[trigger] members@[m]) < files@.len(),
        tables@.len() == files@.len(),
    ensures
        final(out)@ == old(out)@ + mm_dir_text(
            (dir@, idxs_view(members@)),
            files@.map_values(|f: FileOutline| outline_view(f)),
            tables_vec_view(tables@),
            root@,
            di as int,
        ),
{
    let ghost fv = files@.map_values(|f: FileOutline| outline_view(f));
    let ghost tv = tables_vec_view(tables@);
    let ghost mv = idxs_view(members@);
    out.append("    subgraph dir");
    push_usize_dec(out, di);
    out.append(" [\"");
    if dir.as_str().unicode_len() == 0 {
        out.append("/");
    } else {
        let rel = strip_prefix_or(dir.as_str(), root);
        if rel.as_str().unicode_len() == 0 {
            out.append("/");
        } else {
            out.append("/");
            out.append(rel.as_str());
        }
    }
    out.append("\"]\n");
    let ghost m1 = out@;
    proof {
        assert(m1 =~= old(out)@ + ("    subgraph dir"@ + spec_dec(di as int) + " [\""@
            + mm_dir_title(dir@, root@) + "\"]\n"@));
        assert(mv.len() == members@.len());
        assert(out@ =~= m1 + mm_files_upto(mv, fv, tv, root@, di as int, 0));
    }
    let mut m: usize = 0;
    while m < members.len()
        invariant
            m <= members@.len(),
            out@ == m1 + mm_files_upto(mv, fv, tv, root@, di as int, m as int),
        decreases members@.len() - m,
    {
        let idx = members[m];
        proof {
            assert(members@[m as int] < files@.len());
            assert(mv[m as int] == idx as int);
        }
        push_mm_file(di, m, idx, files, tables, root, out);
        m = m + 1;
        proof {
            assert(out@ =~= m1 + mm_files_upto(mv, fv, tv, root@, di as int, m as int));
        }
    }
    out.append("    end\n");
    proof {
        assert(final(out)@ =~= old(out)@ + mm_dir_text(
            (dir@, mv),
            fv,
            tv,
            root@,
            di as int,
        ));
    }
}

// ---------------------------------------------------------------------------
// The structured graph view
// ---------------------------------------------------------------------------

/// The structured-view files of the stored outlines, ids and order kept.
pub open spec fn graph_files(files: Seq<OutlineView>) -> Seq<GFile> {
    files.map_values(
        |f: OutlineView| GFile { id: f.id, path: f.path, symbols: conv_nodes(f.id, f.symbols) },
    )
}

/// Records a relation between two resolved keys unless its endpoints are
/// already joined.
pub open spec fn rel_put(
    rels: Seq<Relation>,
    from: GlobalPosition,
    to: GlobalPosition,
    kind: RelationKind,
) -> Seq<Relation> {
    if rel_mem(rels, from, to) {
        rels
    } else {
        rels.push(Relation { from, to, kind })
    }
}

/// One caller of one incoming relation, as a `Call` relation.
pub open spec fn g_inc_call(
    rels: Seq<Relation>,
    files: Seq<GFile>,
    to: GlobalPosition,
    call: CallHierarchyIncomingCall,
) -> Seq<Relation> {
    match spec_file_id(files, call.from.uri.path@) {
        Option::None => rels,
        Option::Some(fid) => rel_put(
            rels,
            GlobalPosition {
                file_id: fid,
                line: call.from.selection_range.start.line,
                character: call.from.selection_range.start.character,
            },
            to,
            RelationKind::Call,
        ),
    }
}

/// One incoming relation of the structured view.
pub open spec fn g_inc_step(
    rels: Seq<Relation>,
    files: Seq<GFile>,
    rel: (SymbolLocation, Vec<CallHierarchyIncomingCall>),
) -> Seq<Relation> {
    match spec_file_id(files, rel.0.path@) {
        Option::None => rels,
        Option::Some(fid) => {
            let to = GlobalPosition { file_id: fid, line: rel.0.line, character: rel.0.character };
            fold_steps(
                rels,
                rel.1@,
                |rs: Seq<Relation>, c: CallHierarchyIncomingCall| g_inc_call(rs, files, to, c),
            )
        },
    }
}

/// One callee of one outgoing relation, as a `Call` relation.
pub open spec fn g_out_call(
    rels: Seq<Relation>,
    files: Seq<GFile>,
    from: GlobalPosition,
    call: CallHierarchyOutgoingCall,
) -> Seq<Relation> {
    match spec_file_id(files, call.to.uri.path@) {
        Option::None => rels,
        Option::Some(fid) => rel_put(
            rels,
            from,
            GlobalPosition {
                file_id: fid,
                line: call.to.selection_range.start.line,
                character: call.to.selection_range.start.character,
            },
            RelationKind::Call,
        ),
    }
}

/// One outgoing relation of the structured view.
pub open spec fn g_out_step(
    rels: Seq<Relation>,
    files: Seq<GFile>,
    rel: (SymbolLocation, Vec<CallHierarchyOutgoingCall>),
) -> Seq<Relation> {
    match spec_file_id(files, rel.0.path@) {
        Option::None => rels,
        Option::Some(fid) => {
            let from = GlobalPosition {
                file_id: fid,
                line: rel.0.line,
                character: rel.0.character,
            };
            fold_steps(
                rels,
                rel.1@,
                |rs: Seq<Relation>, c: CallHierarchyOutgoingCall| g_out_call(rs, files, from, c),
            )
        },
    }
}

/// One implementor of one implementation relation, as an `Impl` relation.
pub open spec fn g_impl_loc(
    rels: Seq<Relation>,
    files: Seq<GFile>,
    to: GlobalPosition,
    loc: SymbolLocation,
) -> Seq<Relation> {
    match spec_file_id(files, loc.path@) {
        Option::None => rels,
        Option::Some(fid) => rel_put(
            rels,
            GlobalPosition { file_id: fid, line: loc.line, character: loc.character },
            to,
            RelationKind::Impl,
        ),
    }
}

/// One implementation relation of the structured view.
pub open spec fn g_impl_step(
    rels: Seq<Relation>,
    files: Seq<GFile>,
    rel: (SymbolLocation, Vec<SymbolLocation>),
) -> Seq<Relation> {
    match spec_file_id(files, rel.0.path@) {
        Option::None => rels,
        Option::Some(fid) => {
            let to = GlobalPosition { file_id: fid, line: rel.0.line, character: rel.0.character };
            fold_steps(
                rels,
                rel.1@,
                |rs: Seq<Relation>, l: SymbolLocation| g_impl_loc(rs, files, to, l),
            )
        },
    }
}

/// The relation list of the structured view: every store in turn, each
/// relation deduplicated by its endpoints.
pub open spec fn spec_graph_relations(g: GraphGenerator) -> Seq<Relation> {
    let files = graph_files(g.files_view());
    fold_steps(
        fold_steps(
            fold_steps(
                Seq::empty(),
                g.incoming@,
                |rs: Seq<Relation>, r: (SymbolLocation, Vec<CallHierarchyIncomingCall>)|
                    g_inc_step(rs, files, r),
            ),
            g.outgoing@,
            |rs: Seq<Relation>, r: (SymbolLocation, Vec<CallHierarchyOutgoingCall>)| g_out_step(
                rs,
                files,
                r,
            ),
        ),
        g.interfaces@,
        |rs: Seq<Relation>, r: (SymbolLocation, Vec<SymbolLocation>)| g_impl_step(rs, files, r),
    )
}

fn builder_rel_put(
    builder: &mut GraphBuilder,
    from: GlobalPosition,
    to: GlobalPosition,
    kind: RelationKind,
)
    ensures
        final(builder).files@ == old(builder).files@,
        final(builder).relations@ == rel_put(old(builder).relations@, from, to, kind),
{
    builder.add_relation(from, to, kind);
}

impl GraphGenerator {
    /// Builds the structured graph view of the current state: the stored
    /// files, and one relation per resolvable endpoint pair of the three
    /// stores.  No outline is repaired.
    #[verifier::loop_isolation(false)]
    #[verifier::rlimit(100)]
    pub fn generate_graph(&self) -> (r: Graph)
        requires
            self.wf(),
        ensures
            gfiles_view(r.files@) == graph_files(self.files_view()),
            r.relations@ == spec_graph_relations(*self),
    {
        let ghost gfv = graph_files(self.files_view());
        let mut builder = GraphBuilder::new();
        let mut i: usize = 0;
        proof {
            assert(gfv.take(0) =~= Seq::<GFile>::empty());
            assert(gfiles_view(builder.files@) =~= gfv.take(0));
        }
        while i < self.files.len()
            invariant
                i <= self.files@.len(),
                builder.files@.len() == i,
                builder.relations@.len() == 0,
                gfiles_view(builder.files@) == gfv.take(i as int),
            decreases self.files@.len() - i,
        {
            let symbols = clone_symbols(&self.files[i].symbols);
            let ghost pre = builder.files@;
            let id = builder.add_file(self.files[i].path.clone(), symbols);
            i = i + 1;
            proof {
                assert(id == i);
                assert(self.files@[i - 1].id == i);
                assert(self.files_view()[i - 1] == outline_view(self.files@[i - 1]));
                assert(gfv[i - 1] == (GFile {
                    id: id,
                    path: self.files@[i - 1].path@,
                    symbols: conv_nodes(id, sibs_view(self.files@[i - 1].symbols@)),
                }));
                assert(gfiles_view(builder.files@) =~= gfv.take(i as int));
            }
        }
        proof {
            assert(gfv.take(self.files@.len() as int) =~= gfv);
            assert(gfiles_view(builder.files@) == gfv);
        }
        let ghost f_inc = |rs: Seq<Relation>, r: (SymbolLocation, Vec<CallHierarchyIncomingCall>)|
            g_inc_step(rs, gfv, r);
        let mut k: usize = 0;
        proof {
            assert(self.incoming@.take(0) =~= Seq::<
                (SymbolLocation, Vec<CallHierarchyIncomingCall>),
            >::empty());
            assert(builder.relations@ =~= fold_steps(
                Seq::<Relation>::empty(),
                self.incoming@.take(0),
                f_inc,
            ));
        }
        while k < self.incoming.len()
            invariant
                k <= self.incoming@.len(),
                gfiles_view(builder.files@) == gfv,
                builder.relations@ == fold_steps(
                    Seq::<Relation>::empty(),
                    self.incoming@.take(k as int),
                    f_inc,
                ),
            decreases self.incoming@.len() - k,
        {
            let ghost pre = builder.relations@;
            let ghost rel = self.incoming@[k as int];
            let to_id = builder.get_file_id(self.incoming[k].0.path.as_str());
            match to_id {
                Option::None => {},
                Option::Some(fid) => {
                    let to = GlobalPosition {
                        file_id: fid,
                        line: self.incoming[k].0.line,
                        character: self.incoming[k].0.character,
                    };
                    let ghost f_call = |rs: Seq<Relation>, c: CallHierarchyIncomingCall|
                        g_inc_call(rs, gfv, to, c);
                    let ghost calls = self.incoming@[k as int].1@;
                    let mut c: usize = 0;
                    proof {
                        assert(calls.take(0) =~= Seq::<CallHierarchyIncomingCall>::empty());
                    }
                    while c < self.incoming[k].1.len()
                        invariant
                            k < self.incoming@.len(),
                            c <= calls.len(),
                            calls == self.incoming@[k as int].1@,
                            gfiles_view(builder.files@) == gfv,
                            builder.relations@ == fold_steps(pre, calls.take(c as int), f_call),
                        decreases calls.len() - c,
                    {
                        let ghost cur = builder.relations@;
                        let from_id = builder.get_file_id(
                            self.incoming[k].1[c].from.uri.path.as_str(),
                        );
                        match from_id {
                            Option::None => {},
                            Option::Some(ffid) => {
                                let from = GlobalPosition {
                                    file_id: ffid,
                                    line: self.incoming[k].1[c].from.selection_range.start.line,
                                    character: self.incoming[k].1[c].from.selection_range.start.character,
                                };
                                builder_rel_put(&mut builder, from, to, RelationKind::Call);
                            },
                        }
                        c = c + 1;
                        proof {
                            assert(calls.take(c as int) =~= calls.take(c - 1).push(calls[c - 1]));
                            lemma_fold_steps_push(pre, calls.take(c - 1), calls[c - 1], f_call);
                            assert(g_inc_call(cur, gfv, to, calls[c - 1]) == builder.relations@);
                        }
                    }
                    proof {
                        assert(calls.take(calls.len() as int) =~= calls);
                    }
                },
            }
            k = k + 1;
            proof {
                assert(self.incoming@.take(k as int) =~= self.incoming@.take(k - 1).push(rel));
                lemma_fold_steps_push(
                    Seq::<Relation>::empty(),
                    self.incoming@.take(k - 1),
                    rel,
                    f_inc,
                );
                assert(g_inc_step(pre, gfv, rel) == builder.relations@);
            }
        }
        proof {
            assert(self.incoming@.take(self.incoming@.len() as int) =~= self.incoming@);
        }
        let ghost inc_done = builder.relations@;
        let ghost f_out = |rs: Seq<Relation>, r: (SymbolLocation, Vec<CallHierarchyOutgoingCall>)|
            g_out_step(rs, gfv, r);
        let mut k: usize = 0;
        proof {
            assert(self.outgoing@.take(0) =~= Seq::<
                (SymbolLocation, Vec<CallHierarchyOutgoingCall>),
            >::empty());
            assert(builder.relations@ =~= fold_steps(inc_done, self.outgoing@.take(0), f_out));
        }
        while k < self.outgoing.len()
            invariant
                k <= self.outgoing@.len(),
                gfiles_view(builder.files@) == gfv,
                builder.relations@ == fold_steps(inc_done, self.outgoing@.take(k as int), f_out),
            decreases self.outgoing@.len() - k,
        {
            let ghost pre = builder.relations@;
            let ghost rel = self.outgoing@[k as int];
            let from_id = builder.get_file_id(self.outgoing[k].0.path.as_str());
            match from_id {
                Option::None => {},
                Option::Some(fid) => {
                    let from = GlobalPosition {
                        file_id: fid,
                        line: self.outgoing[k].0.line,
                        character: self.outgoing[k].0.character,
                    };
                    let ghost f_call = |rs: Seq<Relation>, c: CallHierarchyOutgoingCall|
                        g_out_call(rs, gfv, from, c);
                    let ghost calls = self.outgoing@[k as int].1@;
                    let mut c: usize = 0;
                    proof {
                        assert(calls.take(0) =~= Seq::<CallHierarchyOutgoingCall>::empty());
                    }
                    while c < self.outgoing[k].1.len()
                        invariant
                            k < self.outgoing@.len(),
                            c <= calls.len(),
                            calls == self.outgoing@[k as int].1@,
                            gfiles_view(builder.files@) == gfv,
                            builder.relations@ == fold_steps(pre, calls.take(c as int), f_call),
                        decreases calls.len() - c,
                    {
                        let ghost cur = builder.relations@;
                        let to_id = builder.get_file_id(
                            self.outgoing[k].1[c].to.uri.path.as_str(),
                        );
                        match to_id {
                            Option::None => {},
                            Option::Some(tfid) => {
                                let to = GlobalPosition {
                                    file_id: tfid,
                                    line: self.outgoing[k].1[c].to.selection_range.start.line,
                                    character: self.outgoing[k].1[c].to.selection_range.start.character,
                                };
                                builder_rel_put(&mut builder, from, to, RelationKind::Call);
                            },
                        }
                        c = c + 1;
                        proof {
                            assert(calls.take(c as int) =~= calls.take(c - 1).push(calls[c - 1]));
                            lemma_fold_steps_push(pre, calls.take(c - 1), calls[c - 1], f_call);
                            assert(g_out_call(cur, gfv, from, calls[c - 1]) == builder.relations@);
                        }
                    }
                    proof {
                        assert(calls.take(calls.len() as int) =~= calls);
                    }
                },
            }
            k = k + 1;
            proof {
                assert(self.outgoing@.take(k as int) =~= self.outgoing@.take(k - 1).push(rel));
                lemma_fold_steps_push(inc_done, self.outgoing@.take(k - 1), rel, f_out);
                assert(g_out_step(pre, gfv, rel) == builder.relations@);
            }
        }
        proof {
            assert(self.outgoing@.take(self.outgoing@.len() as int) =~= self.outgoing@);
        }
        let ghost out_done = builder.relations@;
        let ghost f_impl = |rs: Seq<Relation>, r: (SymbolLocation, Vec<SymbolLocation>)|
            g_impl_step(rs, gfv, r);
        let mut k: usize = 0;
        proof {
            assert(self.interfaces@.take(0) =~= Seq::<
                (SymbolLocation, Vec<SymbolLocation>),
            >::empty());
            assert(builder.relations@ =~= fold_steps(out_done, self.interfaces@.take(0), f_impl));
        }
        while k < self.interfaces.len()
            invariant
                k <= self.interfaces@.len(),
                gfiles_view(builder.files@) == gfv,
                builder.relations@ == fold_steps(out_done, self.interfaces@.take(k as int), f_impl),
            decreases self.interfaces@.len() - k,
        {
            let ghost pre = builder.relations@;
            let ghost rel = self.interfaces@[k as int];
            let to_id = builder.get_file_id(self.interfaces[k].0.path.as_str());
            match to_id {
                Option::None => {},
                Option::Some(fid) => {
                    let to = GlobalPosition {
                        file_id: fid,
                        line: self.interfaces[k].0.line,
                        character: self.interfaces[k].0.character,
                    };
                    let ghost f_loc = |rs: Seq<Relation>, l: SymbolLocation| g_impl_loc(
                        rs,
                        gfv,
                        to,
                        l,
                    );
                    let ghost locs = self.interfaces@[k as int].1@;
                    let mut c: usize = 0;
                    proof {
                        assert(locs.take(0) =~= Seq::<SymbolLocation>::empty());
                    }
                    while c < self.interfaces[k].1.len()
                        invariant
                            k < self.interfaces@.len(),
                            c <= locs.len(),
                            locs == self.interfaces@[k as int].1@,
                            gfiles_view(builder.files@) == gfv,
                            builder.relations@ == fold_steps(pre, locs.take(c as int), f_loc),
                        decreases locs.len() - c,
                    {
                        let ghost cur = builder.relations@;
                        let from_id = builder.get_file_id(self.interfaces[k].1[c].path.as_str());
                        match from_id {
                            Option::None => {},
                            Option::Some(ffid) => {
                                let from = GlobalPosition {
                                    file_id: ffid,
                                    line: self.interfaces[k].1[c].line,
                                    character: self.interfaces[k].1[c].character,
                                };
                                builder_rel_put(&mut builder, from, to, RelationKind::Impl);
                            },
                        }
                        c = c + 1;
                        proof {
                            assert(locs.take(c as int) =~= locs.take(c - 1).push(locs[c - 1]));
                            lemma_fold_steps_push(pre, locs.take(c - 1), locs[c - 1], f_loc);
                            assert(g_impl_loc(cur, gfv, to, locs[c - 1]) == builder.relations@);
                        }
                    }
                    proof {
                        assert(locs.take(locs.len() as int) =~= locs);
                    }
                },
            }
            k = k + 1;
            proof {
                assert(self.interfaces@.take(k as int) =~= self.interfaces@.take(k - 1).push(rel));
                lemma_fold_steps_push(out_done, self.interfaces@.take(k - 1), rel, f_impl);
                assert(g_impl_step(pre, gfv, rel) == builder.relations@);
            }
        }
        proof {
            assert(self.interfaces@.take(self.interfaces@.len() as int) =~= self.interfaces@);
        }
        builder.build()
    }
}

// ---------------------------------------------------------------------------
// Laws
// ---------------------------------------------------------------------------

/// Adding the same file path twice: a first call on a fresh, unfiltered path
/// succeeds and stores its symbols; a second call for the same path fails
/// and leaves the stored symbols unchanged.  The two pairs of hypotheses are
/// what `add_file` ensures of each call.
pub proof fn lemma_add_file_twice(
    g0: GraphGenerator,
    g1: GraphGenerator,
    g2: GraphGenerator,
    path: Seq<char>,
    syms1: Seq<SymNode>,
    r1: bool,
    r2: bool,
)
    requires
        !spec_filter_out_file(g0.lang_view(), path),
        g0.spec_find_file(path) is None,
        r1 == (!spec_filter_out_file(g0.lang_view(), path) && g0.spec_find_file(path) is None),
        r1 ==> g1.files_view() == g0.files_view().push(
            OutlineView { id: (g0.files_view().len() + 1) as u32, path, symbols: syms1 },
        ),
        g1.lang_view() == g0.lang_view(),
        r2 == (!spec_filter_out_file(g1.lang_view(), path) && g1.spec_find_file(path) is None),
        !r2 ==> g2.files_view() == g1.files_view(),
    ensures
        r1 == true,
        r2 == false,
        g2.files_view() == g0.files_view().push(
            OutlineView { id: (g0.files_view().len() + 1) as u32, path, symbols: syms1 },
        ),
        g2.files_view()[g0.files_view().len() as int].symbols == syms1,
{
    lemma_find_path(g1.files_view(), path);
    if g1.spec_find_file(path) is None {
        assert(g1.files_view().last().path == path);
    }
}

/// Rendering twice in a row without adding new data yields the same
/// displayed node set and the same edge set, whenever the first render
/// performs no outline mutation: `g0` is the state before the first render,
/// `g1` the state after it, and the hypotheses are what the render
/// operations ensure.  (When the first render does repair an outline, a
/// relation endpoint that resolves only against the repaired outline can
/// enter the second render's edge set without being in the first.)
pub proof fn lemma_render_idempotent(g0: GraphGenerator, g1: GraphGenerator)
    requires
        g0.spec_render_acc().files == g0.files_view(),
        render_frame(g0, g1),
        g1.files_view() == g0.spec_render_acc().files,
    ensures
        g1.files_view() == g0.files_view(),
        g1.spec_disp() == g0.spec_disp(),
        g1.spec_render_edges() == g0.spec_render_edges(),
        g1.spec_render_acc().files == g1.files_view(),
{
    assert(spec_tables(g1.files_view(), g1.lang, g1.highlights@) == spec_tables(
        g0.files_view(),
        g0.lang,
        g0.highlights@,
    ));
    assert(g1.spec_disp() == g0.spec_disp());
    assert(g1.spec_render_acc() == g0.spec_render_acc());
}

/// Edge-kind separation: between the same two nodes, a plain call edge and
/// an implementation edge are distinct, and the deduplicating insertion
/// keeps both.
pub proof fn lemma_edge_kind_separation(edges: Seq<Edge>, from: NodeId, to: NodeId)
    ensures
        ({
            let plain = Edge { from, to, kind: EdgeKind::Plain };
            let imp = Edge { from, to, kind: EdgeKind::Impl };
            let both = push_edge(push_edge(edges, plain), imp);
            plain != imp && both.contains(plain) && both.contains(imp)
        }),
{
    let plain = Edge { from, to, kind: EdgeKind::Plain };
    let imp = Edge { from, to, kind: EdgeKind::Impl };
    let one = push_edge(edges, plain);
    if !edges.contains(plain) {
        assert(one.last() == plain);
        assert(one.contains(plain));
    }
    let both = push_edge(one, imp);
    if !one.contains(imp) {
        assert(both.last() == imp);
        assert(both.contains(imp));
        assert(forall|j: int| 0 <= j < one.len() ==> both[j] == one[j]);
        let j = choose|j: int| 0 <= j < one.len() && one[j] == plain;
        assert(both[j] == plain);
    }
}

/// Every edge of an edge list joins nodes of `disp`, except that a source
/// may instead be among the ids `ins` that this render's repairs added.
pub open spec fn endpoints_ok(edges: Seq<Edge>, disp: Set<NodeId>, ins: Seq<NodeId>) -> bool {
    forall|k: int|
        0 <= k < edges.len() ==> ((disp.contains((#[trigger] edges[k]).from) || ins.contains(
            edges[k].from,
        )) && disp.contains(edges[k].to))
}

proof fn lemma_push_edge_endpoints(
    edges: Seq<Edge>,
    disp: Set<NodeId>,
    ins: Seq<NodeId>,
    e: Edge,
)
    requires
        endpoints_ok(edges, disp, ins),
        disp.contains(e.from) || ins.contains(e.from),
        disp.contains(e.to),
    ensures
        endpoints_ok(push_edge(edges, e), disp, ins),
{
    if !edges.contains(e) {
        assert(forall|k: int| 0 <= k < edges.len() ==> edges.push(e)[k] == edges[k]);
        assert(edges.push(e).last() == e);
    }
}

proof fn lemma_endpoints_ok_mono(
    edges: Seq<Edge>,
    disp: Set<NodeId>,
    ins: Seq<NodeId>,
    more: Seq<NodeId>,
)
    requires
        endpoints_ok(edges, disp, ins),
        forall|x: NodeId| ins.contains(x) ==> #[trigger] more.contains(x),
    ensures
        endpoints_ok(edges, disp, more),
{
}

proof fn lemma_inc_callers_endpoints(
    acc: IncAcc,
    disp: Set<NodeId>,
    to: NodeId,
    calls: Seq<CallHierarchyIncomingCall>,
)
    requires
        disp.contains(to),
        endpoints_ok(acc.edges, disp, acc.inserted),
    ensures
        ({
            let r = fold_steps(
                acc,
                calls,
                |a: IncAcc, c: CallHierarchyIncomingCall| inc_caller_step(a, disp, to, c),
            );
            endpoints_ok(r.edges, disp, r.inserted) && (forall|x: NodeId|
                acc.inserted.contains(x) ==> #[trigger] r.inserted.contains(x))
        }),
    decreases calls.len(),
{
    let f = |a: IncAcc, c: CallHierarchyIncomingCall| inc_caller_step(a, disp, to, c);
    if calls.len() > 0 {
        let a1 = inc_caller_step(acc, disp, to, calls[0]);
        assert(endpoints_ok(a1.edges, disp, a1.inserted) && (forall|x: NodeId|
            acc.inserted.contains(x) ==> #[trigger] a1.inserted.contains(x))) by {
            match spec_find_path(acc.files, calls[0].from.uri.path@) {
                Option::None => {},
                Option::Some(fi) => {
                    let from = NodeId {
                        file_id: acc.files[fi].id,
                        line: calls[0].from.selection_range.start.line,
                        character: calls[0].from.selection_range.start.character,
                    };
                    let e = Edge { from, to, kind: EdgeKind::Plain };
                    if disp.contains(from) || acc.inserted.contains(from) {
                        lemma_push_edge_endpoints(acc.edges, disp, acc.inserted, e);
                    } else {
                        match spec_repair(acc.files[fi].symbols, item_node(calls[0].from), false) {
                            RepairOutcome::Failed => {},
                            _ => {
                                let ins1 = acc.inserted.push(from);
                                assert(ins1.last() == from);
                                assert forall|x: NodeId|
                                    acc.inserted.contains(x) implies #[trigger] ins1.contains(
                                    x,
                                ) by {
                                    let k = choose|k: int|
                                        0 <= k < acc.inserted.len() && acc.inserted[k] == x;
                                    assert(ins1[k] == x);
                                }
                                lemma_endpoints_ok_mono(acc.edges, disp, acc.inserted, ins1);
                                lemma_push_edge_endpoints(acc.edges, disp, ins1, e);
                            },
                        }
                    }
                },
            }
        }
        lemma_inc_callers_endpoints(a1, disp, to, calls.skip(1));
        assert(fold_steps(acc, calls, f) == fold_steps(a1, calls.skip(1), f));
    }
}

proof fn lemma_inc_pass_endpoints(
    acc: IncAcc,
    disp: Set<NodeId>,
    rels: Seq<(SymbolLocation, Vec<CallHierarchyIncomingCall>)>,
)
    requires
        endpoints_ok(acc.edges, disp, acc.inserted),
    ensures
        ({
            let r = fold_steps(
                acc,
                rels,
                |a: IncAcc, rel: (SymbolLocation, Vec<CallHierarchyIncomingCall>)| inc_rel_step(
                    a,
                    disp,
                    rel,
                ),
            );
            endpoints_ok(r.edges, disp, r.inserted)
        }),
    decreases rels.len(),
{
    let f = |a: IncAcc, rel: (SymbolLocation, Vec<CallHierarchyIncomingCall>)| inc_rel_step(
        a,
        disp,
        rel,
    );
    if rels.len() > 0 {
        let a1 = inc_rel_step(acc, disp, rels[0]);
        assert(endpoints_ok(a1.edges, disp, a1.inserted)) by {
            match spec_resolve(acc.files, rels[0].0.path@, rels[0].0.line, rels[0].0.character) {
                Option::None => {},
                Option::Some(to) => {
                    if disp.contains(to) {
                        lemma_inc_callers_endpoints(acc, disp, to, rels[0].1@);
                    }
                },
            }
        }
        lemma_inc_pass_endpoints(a1, disp, rels.skip(1));
        assert(fold_steps(acc, rels, f) == fold_steps(a1, rels.skip(1), f));
    }
}

proof fn lemma_out_pass_endpoints(
    edges: Seq<Edge>,
    files: Seq<OutlineView>,
    disp: Set<NodeId>,
    ins: Seq<NodeId>,
    rels: Seq<(SymbolLocation, Vec<CallHierarchyOutgoingCall>)>,
)
    requires
        endpoints_ok(edges, disp, ins),
    ensures
        endpoints_ok(out_pass(edges, files, disp, rels), disp, ins),
    decreases rels.len(),
{
    let f = |es: Seq<Edge>, r: (SymbolLocation, Vec<CallHierarchyOutgoingCall>)| out_rel_step(
        es,
        files,
        disp,
        r,
    );
    if rels.len() > 0 {
        let e1 = out_rel_step(edges, files, disp, rels[0]);
        assert(endpoints_ok(e1, disp, ins)) by {
            match spec_resolve(files, rels[0].0.path@, rels[0].0.line, rels[0].0.character) {
                Option::None => {},
                Option::Some(from) => {
                    if disp.contains(from) {
                        lemma_out_calls_endpoints(edges, files, disp, ins, from, rels[0].1@);
                    }
                },
            }
        }
        lemma_out_pass_endpoints(e1, files, disp, ins, rels.skip(1));
        assert(fold_steps(edges, rels, f) == fold_steps(e1, rels.skip(1), f));
    }
}

proof fn lemma_out_calls_endpoints(
    edges: Seq<Edge>,
    files: Seq<OutlineView>,
    disp: Set<NodeId>,
    ins: Seq<NodeId>,
    from: NodeId,
    calls: Seq<CallHierarchyOutgoingCall>,
)
    requires
        disp.contains(from),
        endpoints_ok(edges, disp, ins),
    ensures
        endpoints_ok(
            fold_steps(
                edges,
                calls,
                |es: Seq<Edge>, c: CallHierarchyOutgoingCall| out_call_step(
                    es,
                    files,
                    disp,
                    from,
                    c,
                ),
            ),
            disp,
            ins,
        ),
    decreases calls.len(),
{
    let f = |es: Seq<Edge>, c: CallHierarchyOutgoingCall| out_call_step(es, files, disp, from, c);
    if calls.len() > 0 {
        let e1 = out_call_step(edges, files, disp, from, calls[0]);
        assert(endpoints_ok(e1, disp, ins)) by {
            match spec_resolve(
                files,
                calls[0].to.uri.path@,
                calls[0].to.selection_range.start.line,
                calls[0].to.selection_range.start.character,
            ) {
                Option::None => {},
                Option::Some(to) => {
                    if disp.contains(to) {
                        lemma_push_edge_endpoints(
                            edges,
                            disp,
                            ins,
                            Edge { from, to, kind: EdgeKind::Plain },
                        );
                    }
                },
            }
        }
        lemma_out_calls_endpoints(e1, files, disp, ins, from, calls.skip(1));
        assert(fold_steps(edges, calls, f) == fold_steps(e1, calls.skip(1), f));
    }
}

proof fn lemma_impl_pass_endpoints(
    edges: Seq<Edge>,
    files: Seq<OutlineView>,
    disp: Set<NodeId>,
    ins: Seq<NodeId>,
    rels: Seq<(SymbolLocation, Vec<SymbolLocation>)>,
)
    requires
        endpoints_ok(edges, disp, ins),
    ensures
        endpoints_ok(impl_pass(edges, files, disp, rels), disp, ins),
    decreases rels.len(),
{
    let f = |es: Seq<Edge>, r: (SymbolLocation, Vec<SymbolLocation>)| impl_rel_step(
        es,
        files,
        disp,
        r,
    );
    if rels.len() > 0 {
        let e1 = impl_rel_step(edges, files, disp, rels[0]);
        assert(endpoints_ok(e1, disp, ins)) by {
            match spec_resolve(files, rels[0].0.path@, rels[0].0.line, rels[0].0.character) {
                Option::None => {},
                Option::Some(to) => {
                    if disp.contains(to) {
                        lemma_impl_locs_endpoints(edges, files, disp, ins, to, rels[0].1@);
                    }
                },
            }
        }
        lemma_impl_pass_endpoints(e1, files, disp, ins, rels.skip(1));
        assert(fold_steps(edges, rels, f) == fold_steps(e1, rels.skip(1), f));
    }
}

proof fn lemma_impl_locs_endpoints(
    edges: Seq<Edge>,
    files: Seq<OutlineView>,
    disp: Set<NodeId>,
    ins: Seq<NodeId>,
    to: NodeId,
    locs: Seq<SymbolLocation>,
)
    requires
        disp.contains(to),
        endpoints_ok(edges, disp, ins),
    ensures
        endpoints_ok(
            fold_steps(
                edges,
                locs,
                |es: Seq<Edge>, l: SymbolLocation| impl_loc_step(es, files, disp, to, l),
            ),
            disp,
            ins,
        ),
    decreases locs.len(),
{
    let f = |es: Seq<Edge>, l: SymbolLocation| impl_loc_step(es, files, disp, to, l);
    if locs.len() > 0 {
        let e1 = impl_loc_step(edges, files, disp, to, locs[0]);
        assert(endpoints_ok(e1, disp, ins)) by {
            match spec_resolve(files, locs[0].path@, locs[0].line, locs[0].character) {
                Option::None => {},
                Option::Some(from) => {
                    if disp.contains(from) {
                        lemma_push_edge_endpoints(
                            edges,
                            disp,
                            ins,
                            Edge { from, to, kind: EdgeKind::Impl },
                        );
                    }
                },
            }
        }
        lemma_impl_locs_endpoints(e1, files, disp, ins, to, locs.skip(1));
        assert(fold_steps(edges, locs, f) == fold_steps(e1, locs.skip(1), f));
    }
}

/// No dangling edges: every edge a render keeps joins nodes that were
/// displayed before the render ran, except that a caller endpoint may
/// instead be one of the ids the render's own repairs inserted; every edge
/// target was displayed beforehand.
pub proof fn lemma_render_edges_resolve(g: GraphGenerator)
    ensures
        endpoints_ok(g.spec_render_edges(), g.spec_disp(), g.spec_render_acc().inserted),
{
    let disp = g.spec_disp();
    let acc0 = IncAcc {
        files: g.files_view(),
        inserted: Seq::empty(),
        edges: Seq::empty(),
    };
    lemma_inc_pass_endpoints(acc0, disp, g.incoming@);
    let acc = g.spec_render_acc();
    lemma_out_pass_endpoints(acc.edges, acc.files, disp, acc.inserted, g.outgoing@);
    lemma_impl_pass_endpoints(
        out_pass(acc.edges, acc.files, disp, g.outgoing@),
        acc.files,
        disp,
        acc.inserted,
        g.interfaces@,
    );
}

/// A dropped outgoing relation: when its caller endpoint does not resolve,
/// the whole relation contributes no edge; and no outline is ever mutated on
/// its account — the rendered outlines are decided by the incoming pass
/// alone, so with nothing in the incoming store a render changes nothing.
pub proof fn lemma_dropped_outgoing(
    edges: Seq<Edge>,
    files: Seq<OutlineView>,
    disp: Set<NodeId>,
    rel: (SymbolLocation, Vec<CallHierarchyOutgoingCall>),
    g: GraphGenerator,
)
    requires
        g.incoming@ == Seq::<(SymbolLocation, Vec<CallHierarchyIncomingCall>)>::empty(),
    ensures
        spec_resolve(files, rel.0.path@, rel.0.line, rel.0.character) is None ==> out_rel_step(
            edges,
            files,
            disp,
            rel,
        ) == edges,
        g.spec_render_acc().files == g.files_view(),
{
}

/// A dropped outgoing callee: a callee that does not resolve, or resolves
/// outside the displayed node set, contributes no edge; no repair is
/// attempted for it.
pub proof fn lemma_dropped_outgoing_call(
    edges: Seq<Edge>,
    files: Seq<OutlineView>,
    disp: Set<NodeId>,
    from: NodeId,
    call: CallHierarchyOutgoingCall,
)
    requires
        match spec_resolve(
            files,
            call.to.uri.path@,
            call.to.selection_range.start.line,
            call.to.selection_range.start.character,
        ) {
            Option::None => true,
            Option::Some(t) => !disp.contains(t),
        },
    ensures
        out_call_step(edges, files, disp, from, call) == edges,
{
}

} // verus!
