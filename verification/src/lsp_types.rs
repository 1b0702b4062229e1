//! The structured inputs handed over by the code-intelligence provider:
//! positions, ranges, symbol outlines and call-hierarchy relations.

use vstd::prelude::*;

verus! {

/// A zero-based (line, character) position inside a file.
#[derive(Debug, Clone, Copy, PartialEq, Eq, Structural)]
pub struct Position {
    pub line: u32,
    pub character: u32,
}

/// Strict lexicographic order on positions: by line, then by character.
pub open spec fn pos_lt(a: Position, b: Position) -> bool {
    a.line < b.line || (a.line == b.line && a.character < b.character)
}

/// Non-strict lexicographic order on positions.
pub open spec fn pos_le(a: Position, b: Position) -> bool {
    pos_lt(a, b) || a == b
}

impl Position {
    /// Decides the strict lexicographic order.
    pub fn lt(self, other: Position) -> (r: bool)
        ensures
            r == pos_lt(self, other),
    {
        self.line < other.line || (self.line == other.line && self.character < other.character)
    }

    /// Decides the non-strict lexicographic order.
    pub fn le(self, other: Position) -> (r: bool)
        ensures
            r == pos_le(self, other),
    {
        self.line < other.line || (self.line == other.line && self.character <= other.character)
    }
}

/// A half-open span of text, from `start` up to (and excluding) `end`.
#[derive(Debug, Clone, Copy, PartialEq, Eq, Structural)]
pub struct Range {
    pub start: Position,
    pub end: Position,
}

/// A range is ordered: its start does not come after its end.
pub open spec fn range_wf(r: Range) -> bool {
    pos_le(r.start, r.end)
}

/// The symbol classification reported by the provider.
#[derive(Debug, Clone, Copy, PartialEq, Eq, Structural)]
pub enum SymbolKind {
    File,
    Module,
    Namespace,
    Package,
    Class,
    Method,
    Property,
    Field,
    Constructor,
    Enum,
    Interface,
    Function,
    Variable,
    Constant,
    String,
    Number,
    Boolean,
    Array,
    Object,
    Key,
    Null,
    EnumMember,
    Struct,
    Event,
    Operator,
    TypeParameter,
}

impl SymbolKind {
    /// The numeric code of the kind, as used for navigation anchors.
    pub open spec fn spec_code(self) -> u8 {
        match self {
            SymbolKind::File => 1,
            SymbolKind::Module => 2,
            SymbolKind::Namespace => 3,
            SymbolKind::Package => 4,
            SymbolKind::Class => 5,
            SymbolKind::Method => 6,
            SymbolKind::Property => 7,
            SymbolKind::Field => 8,
            SymbolKind::Constructor => 9,
            SymbolKind::Enum => 10,
            SymbolKind::Interface => 11,
            SymbolKind::Function => 12,
            SymbolKind::Variable => 13,
            SymbolKind::Constant => 14,
            SymbolKind::String => 15,
            SymbolKind::Number => 16,
            SymbolKind::Boolean => 17,
            SymbolKind::Array => 18,
            SymbolKind::Object => 19,
            SymbolKind::Key => 20,
            SymbolKind::Null => 21,
            SymbolKind::EnumMember => 22,
            SymbolKind::Struct => 23,
            SymbolKind::Event => 24,
            SymbolKind::Operator => 25,
            SymbolKind::TypeParameter => 26,
        }
    }

    /// Computes the numeric code of the kind.
    #[verifier::when_used_as_spec(spec_code)]
    pub fn code(self) -> (c: u8)
        ensures
            c == self.spec_code(),
    {
        match self {
            SymbolKind::File => 1,
            SymbolKind::Module => 2,
            SymbolKind::Namespace => 3,
            SymbolKind::Package => 4,
            SymbolKind::Class => 5,
            SymbolKind::Method => 6,
            SymbolKind::Property => 7,
            SymbolKind::Field => 8,
            SymbolKind::Constructor => 9,
            SymbolKind::Enum => 10,
            SymbolKind::Interface => 11,
            SymbolKind::Function => 12,
            SymbolKind::Variable => 13,
            SymbolKind::Constant => 14,
            SymbolKind::String => 15,
            SymbolKind::Number => 16,
            SymbolKind::Boolean => 17,
            SymbolKind::Array => 18,
            SymbolKind::Object => 19,
            SymbolKind::Key => 20,
            SymbolKind::Null => 21,
            SymbolKind::EnumMember => 22,
            SymbolKind::Struct => 23,
            SymbolKind::Event => 24,
            SymbolKind::Operator => 25,
            SymbolKind::TypeParameter => 26,
        }
    }
}

/// An extra marker a provider may attach to a symbol.
#[derive(Debug, Clone, Copy, PartialEq, Eq, Structural)]
pub enum SymbolTag {
    Deprecated,
}

/// One node of a file's symbol outline.
pub struct DocumentSymbol {
    pub name: String,
    pub detail: Option<String>,
    pub kind: SymbolKind,
    pub tags: Option<Vec<SymbolTag>>,
    pub range: Range,
    pub selection_range: Range,
    pub children: Vec<DocumentSymbol>,
}

/// The mathematical model of an outline node: the parts of a symbol that the
/// graph reads, with names as character sequences and children as a sequence
/// of models.
pub struct SymNode {
    pub name: Seq<char>,
    pub kind: SymbolKind,
    pub range: Range,
    pub selection_range: Range,
    pub children: Seq<SymNode>,
}

/// The model of one outline node.
pub open spec fn sym_view(s: DocumentSymbol) -> SymNode
    decreases s,
{
    SymNode {
        name: s.name@,
        kind: s.kind,
        range: s.range,
        selection_range: s.selection_range,
        children: sibs_view(s.children@),
    }
}

/// The model of a sibling list, element by element.
pub open spec fn sibs_view(ss: Seq<DocumentSymbol>) -> Seq<SymNode>
    decreases ss,
{
    if ss.len() == 0 {
        Seq::empty()
    } else {
        sibs_view(ss.drop_last()).push(sym_view(ss.last()))
    }
}

/// Taking the model of a sibling list commutes with length and indexing.
pub broadcast proof fn lemma_sibs_view_index(ss: Seq<DocumentSymbol>)
    ensures
        (#[trigger] sibs_view(ss)).len() == ss.len(),
        forall|i: int| 0 <= i < ss.len() ==> sibs_view(ss)[i] == sym_view(ss[i]),
    decreases ss,
{
    if ss.len() > 0 {
        lemma_sibs_view_index(ss.drop_last());
        assert(forall|i: int| 0 <= i < ss.len() - 1 ==> ss.drop_last()[i] == ss[i]);
    }
}

/// Well-formedness of one model node: its range is ordered, its children
/// form a well-formed sibling list, and every child lies inside its range.
pub open spec fn node_wf(n: SymNode) -> bool
    decreases n,
{
    &&& range_wf(n.range)
    &&& forest_wf(n.children)
    &&& forall|i: int|
        0 <= i < n.children.len() ==> pos_le(n.range.start, (#[trigger] n.children[i]).range.start)
            && pos_le(n.children[i].range.end, n.range.end)
}

/// Well-formedness of a sibling list: every member is well-formed, starts are
/// strictly ascending, and the spans of distinct members do not overlap.
pub open spec fn forest_wf(ns: Seq<SymNode>) -> bool
    decreases ns,
{
    &&& forall|i: int| 0 <= i < ns.len() ==> node_wf(#[trigger] ns[i])
    &&& forall|i: int, j: int|
        0 <= i < j < ns.len() ==> pos_lt((#[trigger] ns[i]).range.start, (#[trigger] ns[j]).range.start)
            && pos_le(ns[i].range.end, ns[j].range.start)
}

/// The height of a model node: one more than the height of its children.
pub open spec fn node_height(n: SymNode) -> nat
    decreases n,
{
    1 + forest_height(n.children)
}

/// The height of a sibling list: the greatest height of a member.
pub open spec fn forest_height(ns: Seq<SymNode>) -> nat
    decreases ns,
{
    if ns.len() == 0 {
        0
    } else {
        let h = node_height(ns.last());
        let rest = forest_height(ns.drop_last());
        if h > rest {
            h
        } else {
            rest
        }
    }
}

/// Every member of a sibling list is bounded by the list's height.
pub proof fn lemma_forest_height_mem(ns: Seq<SymNode>, i: int)
    requires
        0 <= i < ns.len(),
    ensures
        node_height(ns[i]) <= forest_height(ns),
    decreases ns,
{
    if i < ns.len() - 1 {
        lemma_forest_height_mem(ns.drop_last(), i);
    }
}

/// The identity of a resource, reduced to its path.
pub struct Uri {
    pub path: String,
}

/// A place inside a resource.
pub struct Location {
    pub uri: Uri,
    pub range: Range,
}

/// A symbol partaking in a call-hierarchy relation.
pub struct CallHierarchyItem {
    pub name: String,
    pub kind: SymbolKind,
    pub tags: Option<Vec<SymbolTag>>,
    pub detail: Option<String>,
    pub uri: Uri,
    pub range: Range,
    pub selection_range: Range,
    pub data: Option<String>,
}

/// One caller of a symbol, with the spans the calls are made from.
pub struct CallHierarchyIncomingCall {
    pub from: CallHierarchyItem,
    pub from_ranges: Vec<Range>,
}

/// One callee of a symbol, with the spans the calls are made from.
pub struct CallHierarchyOutgoingCall {
    pub to: CallHierarchyItem,
    pub from_ranges: Vec<Range>,
}

/// On a list whose every adjacent pair is ordered and non-overlapping, any
/// two members in order are.
proof fn lemma_order_chain(ns: Seq<SymNode>, i: int, j: int)
    requires
        adjacent_ordered(ns),
        0 <= i < j < ns.len(),
    ensures
        pos_lt(ns[i].range.start, ns[j].range.start),
        pos_le(ns[i].range.end, ns[j].range.start),
    decreases j - i,
{
    if j > i + 1 {
        lemma_order_chain(ns, i, j - 1);
    }
    assert(pos_lt(ns[j - 1].range.start, ns[j].range.start) && pos_le(
        ns[j - 1].range.end,
        ns[j].range.start,
    ));
}

/// Decides whether one outline node is well-formed.
fn symbol_well_formed(s: &DocumentSymbol) -> (r: bool)
    ensures
        r == node_wf(sym_view(*s)),
    decreases node_height(sym_view(*s)), 0int, 0int,
{
    broadcast use lemma_sibs_view_index;

    let ghost n = sym_view(*s);
    if !s.range.start.le(s.range.end) {
        return false;
    }
    if !symbols_well_formed(&s.children) {
        return false;
    }
    let mut i: usize = 0;
    while i < s.children.len()
        invariant
            i <= s.children@.len(),
            n == sym_view(*s),
            n.children == sibs_view(s.children@),
            n.children.len() == s.children@.len(),
            forall|j: int| 0 <= j < s.children@.len() ==> n.children[j] == sym_view(
                s.children@[j],
            ),
            forall|j: int|
                0 <= j < i ==> pos_le(n.range.start, (#[trigger] n.children[j]).range.start)
                    && pos_le(n.children[j].range.end, n.range.end),
        decreases s.children@.len() - i,
    {
        let contained = s.range.start.le(s.children[i].range.start) && s.children[
            i
        ].range.end.le(s.range.end);
        if !contained {
            proof {
                assert(!(pos_le(n.range.start, n.children[i as int].range.start) && pos_le(
                    n.children[i as int].range.end,
                    n.range.end,
                )));
            }
            return false;
        }
        i = i + 1;
    }
    true
}

/// Decides whether a sibling list is well-formed: a provider outline can be
/// tested against the data-model invariant before it is stored.
/// Every adjacent sibling pair is ordered by strictly ascending start and
/// non-overlapping spans.
pub open spec fn adjacent_ordered(ns: Seq<SymNode>) -> bool {
    forall|j: int, k: int|
        0 <= j && k == j + 1 && k < ns.len() ==> pos_lt(
            (#[trigger] ns[j]).range.start,
            (#[trigger] ns[k]).range.start,
        ) && pos_le(ns[j].range.end, ns[k].range.start)
}

/// Decides whether every adjacent sibling pair is ordered by strictly
/// ascending start and non-overlapping spans.
#[verifier::rlimit(100)]
fn siblings_ordered(ss: &Vec<DocumentSymbol>) -> (r: bool)
    ensures
        r == adjacent_ordered(sibs_view(ss@)),
{
    let ghost ns = sibs_view(ss@);
    proof {
        lemma_sibs_view_index(ss@);
    }
    let count = ss.len();
    if count == 0 {
        return true;
    }
    let mut k: usize = 0;
    while k < count - 1
        invariant
            count == ss@.len(),
            0 < count,
            k <= count - 1,
            ns == sibs_view(ss@),
            ns.len() == ss@.len(),
            forall|j: int| 0 <= j < ss@.len() ==> ns[j] == sym_view(ss@[j]),
            forall|j: int, m: int|
                0 <= j && m == j + 1 && m <= k ==> pos_lt(
                    (#[trigger] ns[j]).range.start,
                    (#[trigger] ns[m]).range.start,
                ) && pos_le(ns[j].range.end, ns[m].range.start),
        decreases count - k,
    {
        let ordered = ss[k].range.start.lt(ss[k + 1].range.start) && ss[k].range.end.le(
            ss[k + 1].range.start,
        );
        if !ordered {
            proof {
                assert(!(pos_lt(ns[k as int].range.start, ns[k + 1].range.start) && pos_le(
                    ns[k as int].range.end,
                    ns[k + 1].range.start,
                )));
            }
            return false;
        }
        k = k + 1;
    }
    true
}

/// On an adjacently ordered sibling list, any two members in order are
/// ordered and non-overlapping.
#[verifier::rlimit(100)]
proof fn lemma_pairwise_from_adjacent(ns: Seq<SymNode>)
    requires
        adjacent_ordered(ns),
    ensures
        forall|a: int, b: int|
            0 <= a < b < ns.len() ==> pos_lt(
                (#[trigger] ns[a]).range.start,
                (#[trigger] ns[b]).range.start,
            ) && pos_le(ns[a].range.end, ns[b].range.start),
{
    assert forall|a: int, b: int| 0 <= a < b < ns.len() implies pos_lt(
        (#[trigger] ns[a]).range.start,
        (#[trigger] ns[b]).range.start,
    ) && pos_le(ns[a].range.end, ns[b].range.start) by {
        lemma_order_chain(ns, a, b);
    }
}

/// A member that is not well-formed makes the whole list not well-formed.
#[verifier::rlimit(100)]
proof fn lemma_not_wf_member(ns: Seq<SymNode>, i: int)
    requires
        0 <= i < ns.len(),
        !node_wf(ns[i]),
    ensures
        !forest_wf(ns),
{
}

/// An unordered or overlapping adjacent pair makes the whole list not
/// well-formed.
#[verifier::rlimit(100)]
proof fn lemma_not_wf_pair(ns: Seq<SymNode>, j: int)
    requires
        0 <= j < ns.len() - 1,
        !(pos_lt(ns[j].range.start, ns[j + 1].range.start) && pos_le(
            ns[j].range.end,
            ns[j + 1].range.start,
        )),
    ensures
        !forest_wf(ns),
{
}

/// A sibling list whose members are each well-formed and whose adjacent
/// pairs are ordered is well-formed as a whole.
#[verifier::rlimit(100)]
proof fn lemma_wf_intro(ns: Seq<SymNode>)
    requires
        forall|j: int| 0 <= j < ns.len() ==> #[trigger] node_wf(ns[j]),
        adjacent_ordered(ns),
    ensures
        forest_wf(ns),
{
    lemma_pairwise_from_adjacent(ns);
    assert forall|i: int| 0 <= i < ns.len() implies node_wf(#[trigger] ns[i]) by {
        assert(node_wf(ns[i]));
    }
    assert(forest_wf(ns));
}

/// Decides whether every member of a sibling list is well-formed on its own.
#[verifier::rlimit(100)]
fn members_well_formed(ss: &Vec<DocumentSymbol>) -> (r: Option<usize>)
    ensures
        match r {
            Option::None => forall|j: int|
                0 <= j < sibs_view(ss@).len() ==> #[trigger] node_wf(sibs_view(ss@)[j]),
            Option::Some(i) => i < ss@.len() && !node_wf(sibs_view(ss@)[i as int]),
        },
    decreases forest_height(sibs_view(ss@)), ss@.len(), 0int,
{
    let ghost ns = sibs_view(ss@);
    proof {
        lemma_sibs_view_index(ss@);
    }
    let mut i: usize = 0;
    while i < ss.len()
        invariant
            i <= ss@.len(),
            ns == sibs_view(ss@),
            ns.len() == ss@.len(),
            forall|j: int| 0 <= j < ss@.len() ==> ns[j] == sym_view(ss@[j]),
            forall|j: int| 0 <= j < i ==> #[trigger] node_wf(ns[j]),
            forest_height(ns) == forest_height(sibs_view(ss@)),
        decreases ss@.len() - i,
    {
        proof {
            lemma_forest_height_mem(ns, i as int);
        }
        let ok = symbol_well_formed(&ss[i]);
        if !ok {
            return Option::Some(i);
        }
        i = i + 1;
    }
    Option::None
}

/// Decides whether a sibling list is well-formed: a provider outline can be
/// tested against the data-model invariant before it is stored.
#[verifier::rlimit(100)]
pub fn symbols_well_formed(ss: &Vec<DocumentSymbol>) -> (r: bool)
    ensures
        r == forest_wf(sibs_view(ss@)),
    decreases forest_height(sibs_view(ss@)), ss@.len(), 1int,
{
    let ghost ns = sibs_view(ss@);
    proof {
        lemma_sibs_view_index(ss@);
    }
    let bad = members_well_formed(ss);
    match bad {
        Option::Some(i) => {
            proof {
                lemma_not_wf_member(ns, i as int);
            }
            return false;
        },
        Option::None => {},
    }
    let ordered = siblings_ordered(ss);
    if !ordered {
        proof {
            let (j, k): (int, int) = choose|j: int, k: int|
                0 <= j && k == j + 1 && k < ns.len() && !(pos_lt(
                    (#[trigger] ns[j]).range.start,
                    (#[trigger] ns[k]).range.start,
                ) && pos_le(ns[j].range.end, ns[k].range.start));
            lemma_not_wf_pair(ns, j);
        }
        return false;
    }
    proof {
        lemma_wf_intro(ns);
    }
    true
}

/// Copies one outline node; the copy has the same model.
pub fn clone_symbol(s: &DocumentSymbol) -> (r: DocumentSymbol)
    ensures
        sym_view(r) == sym_view(*s),
    decreases node_height(sym_view(*s)), 0int,
{
    broadcast use lemma_sibs_view_index;

    let detail = match &s.detail {
        Option::None => Option::<String>::None,
        Option::Some(d) => Option::Some(d.clone()),
    };
    let tags = match &s.tags {
        Option::None => Option::<Vec<SymbolTag>>::None,
        Option::Some(v) => {
            let mut out: Vec<SymbolTag> = Vec::new();
            let mut i: usize = 0;
            while i < v.len()
                decreases v@.len() - i,
            {
                out.push(v[i]);
                i = i + 1;
            }
            Option::Some(out)
        },
    };
    let children = clone_symbols(&s.children);
    let r = DocumentSymbol {
        name: s.name.clone(),
        detail,
        kind: s.kind,
        tags,
        range: s.range,
        selection_range: s.selection_range,
        children,
    };
    proof {
        assert(sym_view(r) == sym_view(*s));
    }
    r
}

/// Copies an outline sibling list; the copy has the same model.
pub fn clone_symbols(ss: &Vec<DocumentSymbol>) -> (r: Vec<DocumentSymbol>)
    ensures
        sibs_view(r@) == sibs_view(ss@),
    decreases forest_height(sibs_view(ss@)), ss@.len(),
{
    broadcast use lemma_sibs_view_index;

    let ghost ns = sibs_view(ss@);
    let mut out: Vec<DocumentSymbol> = Vec::new();
    let mut i: usize = 0;
    proof {
        assert(ns.take(0) =~= Seq::<SymNode>::empty());
        assert(sibs_view(out@) =~= ns.take(0));
    }
    while i < ss.len()
        invariant
            i <= ss@.len(),
            ns == sibs_view(ss@),
            ns.len() == ss@.len(),
            forall|j: int| 0 <= j < ss@.len() ==> ns[j] == sym_view(ss@[j]),
            sibs_view(out@) == ns.take(i as int),
            forest_height(ns) == forest_height(sibs_view(ss@)),
        decreases ss@.len() - i,
    {
        proof {
            lemma_forest_height_mem(ns, i as int);
        }
        let ghost pre = out@;
        let c = clone_symbol(&ss[i]);
        out.push(c);
        i = i + 1;
        proof {
            assert(out@.drop_last() =~= pre);
            assert(sibs_view(out@) == sibs_view(pre).push(sym_view(out@.last())));
            assert(ns.take(i as int).drop_last() =~= ns.take(i - 1));
            assert(ns.take(i as int).last() == ns[i - 1]);
            assert(sibs_view(out@) =~= ns.take(i as int));
        }
    }
    proof {
        assert(ns.take(ss@.len() as int) =~= ns);
    }
    out
}

} // verus!
