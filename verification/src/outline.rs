//! The outline store's file entries and nested-symbol repair: inserting into
//! an outline a nested symbol that only a relation endpoint mentions.

use vstd::prelude::*;

use crate::lsp_types::{
    forest_height, forest_wf, lemma_forest_height_mem, lemma_sibs_view_index, node_wf, pos_le,
    pos_lt, range_wf, sibs_view, sym_view, CallHierarchyItem, DocumentSymbol, Position, SymNode,
    SymbolKind, SymbolTag,
};

verus! {

/// One file of the outline store: a stable numeric identity, the file path,
/// and the file's symbol tree.
pub struct FileOutline {
    pub id: u32,
    pub path: String,
    pub symbols: Vec<DocumentSymbol>,
}

/// The mathematical model of a stored file.
pub struct OutlineView {
    pub id: u32,
    pub path: Seq<char>,
    pub symbols: Seq<SymNode>,
}

/// The model of a stored file.
pub open spec fn outline_view(f: FileOutline) -> OutlineView {
    OutlineView { id: f.id, path: f.path@, symbols: sibs_view(f.symbols@) }
}

/// A well-formed stored file is one whose symbol tree is well-formed.
pub open spec fn outline_wf(f: FileOutline) -> bool {
    forest_wf(outline_view(f).symbols)
}

/// The model of a relation endpoint taken as a new outline node: the node
/// starts with no children.
pub open spec fn item_node(it: CallHierarchyItem) -> SymNode {
    SymNode {
        name: it.name@,
        kind: it.kind,
        range: it.range,
        selection_range: it.selection_range,
        children: Seq::empty(),
    }
}

/// The kinds a repair may descend into: only functions and methods model the
/// nested closures a provider omits.
pub open spec fn is_func_like(k: SymbolKind) -> bool {
    k == SymbolKind::Function || k == SymbolKind::Method
}

/// The number of siblings whose span starts strictly before `p`.
pub open spec fn idx_lt(ns: Seq<SymNode>, p: Position) -> int
    decreases ns,
{
    if ns.len() == 0 {
        0
    } else {
        idx_lt(ns.drop_last(), p) + if pos_lt(ns.last().range.start, p) {
            1int
        } else {
            0int
        }
    }
}

/// On a list with strictly ascending starts, the count of smaller starts is
/// the insertion index: everything before it starts earlier, everything at or
/// after it does not.
pub proof fn lemma_idx_lt_sorted(ns: Seq<SymNode>, p: Position)
    requires
        forall|i: int, j: int|
            0 <= i < j < ns.len() ==> pos_lt(
                (#[trigger] ns[i]).range.start,
                (#[trigger] ns[j]).range.start,
            ),
    ensures
        0 <= idx_lt(ns, p) <= ns.len(),
        forall|j: int| 0 <= j < idx_lt(ns, p) ==> pos_lt((#[trigger] ns[j]).range.start, p),
        forall|j: int| idx_lt(ns, p) <= j < ns.len() ==> !pos_lt((#[trigger] ns[j]).range.start, p),
    decreases ns,
{
    if ns.len() > 0 {
        let d = ns.drop_last();
        assert(forall|i: int| 0 <= i < d.len() ==> d[i] == ns[i]);
        lemma_idx_lt_sorted(d, p);
        if pos_lt(ns.last().range.start, p) {
            assert(forall|j: int|
                0 <= j < ns.len() - 1 ==> pos_lt((#[trigger] ns[j]).range.start, p));
            assert(idx_lt(d, p) == ns.len() - 1);
        }
    }
}

/// On a sorted list, the insertion index computed by a search that reports
/// the two bracketing conditions equals `idx_lt`.
pub proof fn lemma_idx_lt_is(ns: Seq<SymNode>, p: Position, i: int)
    requires
        0 <= i <= ns.len(),
        forall|j: int| 0 <= j < i ==> pos_lt((#[trigger] ns[j]).range.start, p),
        forall|j: int| i <= j < ns.len() ==> !pos_lt((#[trigger] ns[j]).range.start, p),
    ensures
        idx_lt(ns, p) == i,
    decreases ns,
{
    if ns.len() > 0 {
        let d = ns.drop_last();
        assert(forall|k: int| 0 <= k < d.len() ==> d[k] == ns[k]);
        if pos_lt(ns.last().range.start, p) {
            assert(i == ns.len());
            lemma_idx_lt_is(d, p, i - 1);
        } else {
            assert(i <= ns.len() - 1);
            lemma_idx_lt_is(d, p, i);
        }
    }
}

/// What a repair attempt does to a sibling list.
pub enum RepairOutcome {
    /// A sibling already starts at the item's start; nothing to do.
    Found,
    /// No qualifying container, or the insertion would break the outline
    /// invariant; nothing is changed.
    Failed,
    /// The item was inserted as a nested symbol; the new sibling list.
    Inserted(Seq<SymNode>),
}

/// The nested-symbol repair on a sibling list.  The item's start is searched
/// for among the siblings; an exact hit means the symbol is already present.
/// When the predecessor's span strictly contains the item's span, the repair
/// descends into it, provided it is a function or a method.  A descent that
/// has happened at least once (`nested`) ends in inserting the item as a new
/// leaf; a sibling that the new item strictly contains is demoted to be its
/// child.  An insertion that would break the sibling invariant fails instead.
pub open spec fn spec_repair(ns: Seq<SymNode>, item: SymNode, nested: bool) -> RepairOutcome
    decreases forest_height(ns),
        via spec_repair_decreases
{
    let i = idx_lt(ns, item.range.start);
    if 0 <= i < ns.len() && ns[i].range.start == item.range.start {
        RepairOutcome::Found
    } else if 0 < i <= ns.len() && pos_lt(item.range.end, ns[i - 1].range.end) {
        if is_func_like(ns[i - 1].kind) {
            match spec_repair(ns[i - 1].children, item, true) {
                RepairOutcome::Found => RepairOutcome::Found,
                RepairOutcome::Failed => RepairOutcome::Failed,
                RepairOutcome::Inserted(cs) => RepairOutcome::Inserted(
                    ns.update(i - 1, SymNode { children: cs, ..ns[i - 1] }),
                ),
            }
        } else {
            RepairOutcome::Failed
        }
    } else if !nested {
        RepairOutcome::Failed
    } else if !(0 <= i <= ns.len()) {
        RepairOutcome::Failed
    } else {
        let demote = i < ns.len() && pos_lt(item.range.start, ns[i].range.start) && pos_lt(
            ns[i].range.end,
            item.range.end,
        );
        let pred_ok = i == 0 || pos_le(ns[i - 1].range.end, item.range.start);
        let nxt = if demote {
            i + 1
        } else {
            i
        };
        let next_ok = nxt >= ns.len() || pos_le(item.range.end, ns[nxt].range.start);
        if range_wf(item.range) && pred_ok && next_ok {
            let node = SymNode {
                children: if demote {
                    seq![ns[i]]
                } else {
                    Seq::empty()
                },
                ..item
            };
            RepairOutcome::Inserted(
                if demote {
                    ns.remove(i).insert(i, node)
                } else {
                    ns.insert(i, node)
                },
            )
        } else {
            RepairOutcome::Failed
        }
    }
}

#[via_fn]
proof fn spec_repair_decreases(ns: Seq<SymNode>, item: SymNode, nested: bool) {
    let i = idx_lt(ns, item.range.start);
    if 0 < i <= ns.len() {
        lemma_forest_height_mem(ns, i - 1);
    }
}

/// Every member of a sibling list spans a part of `[lo, hi]`.
pub open spec fn forest_within(ns: Seq<SymNode>, lo: Position, hi: Position) -> bool {
    forall|k: int|
        0 <= k < ns.len() ==> pos_le(lo, (#[trigger] ns[k]).range.start) && pos_le(
            ns[k].range.end,
            hi,
        )
}

/// At every nesting level, symbols stay ordered by ascending start position
/// and pairwise non-overlapping after any repair-triggered insertion; a
/// repaired tree also stays inside any span that held the old tree and the
/// inserted item.
pub proof fn lemma_repair_preserves_wf(ns: Seq<SymNode>, item: SymNode, nested: bool)
    requires
        forest_wf(ns),
    ensures
        match spec_repair(ns, item, nested) {
            RepairOutcome::Inserted(t) => forest_wf(t) && forall|lo: Position, hi: Position|
                forest_within(ns, lo, hi) && pos_le(lo, item.range.start) && pos_le(
                    item.range.end,
                    hi,
                ) ==> #[trigger] forest_within(t, lo, hi),
            _ => true,
        },
    decreases forest_height(ns),
{
    let i = idx_lt(ns, item.range.start);
    lemma_idx_lt_sorted(ns, item.range.start);
    if 0 <= i < ns.len() && ns[i].range.start == item.range.start {
    } else if 0 < i <= ns.len() && pos_lt(item.range.end, ns[i - 1].range.end) {
        if is_func_like(ns[i - 1].kind) {
            let pred = ns[i - 1];
            lemma_forest_height_mem(ns, i - 1);
            lemma_repair_preserves_wf(pred.children, item, true);
            match spec_repair(pred.children, item, true) {
                RepairOutcome::Inserted(cs) => {
                    let node = SymNode { children: cs, ..pred };
                    let t = ns.update(i - 1, node);
                    assert(forest_within(pred.children, pred.range.start, pred.range.end));
                    assert(pos_le(pred.range.start, item.range.start));
                    assert(pos_le(item.range.end, pred.range.end));
                    assert(forest_within(cs, pred.range.start, pred.range.end));
                    assert(node_wf(node));
                    assert(forest_wf(t)) by {
                        assert(forall|k: int| 0 <= k < t.len() && k != i - 1 ==> t[k] == ns[k]);
                        assert(forall|k: int|
                            0 <= k < t.len() ==> (#[trigger] t[k]).range == ns[k].range);
                    }
                    assert(forall|lo: Position, hi: Position|
                        forest_within(ns, lo, hi) && pos_le(lo, item.range.start) && pos_le(
                            item.range.end,
                            hi,
                        ) ==> #[trigger] forest_within(t, lo, hi)) by {
                        assert(forall|k: int|
                            0 <= k < t.len() ==> (#[trigger] t[k]).range == ns[k].range);
                    }
                },
                _ => {},
            }
        }
    } else if !nested {
    } else {
        let demote = i < ns.len() && pos_lt(item.range.start, ns[i].range.start) && pos_lt(
            ns[i].range.end,
            item.range.end,
        );
        let pred_ok = i == 0 || pos_le(ns[i - 1].range.end, item.range.start);
        let nxt = if demote {
            i + 1
        } else {
            i
        };
        let next_ok = nxt >= ns.len() || pos_le(item.range.end, ns[nxt].range.start);
        if range_wf(item.range) && pred_ok && next_ok {
            let node = SymNode {
                children: if demote {
                    seq![ns[i]]
                } else {
                    Seq::empty()
                },
                ..item
            };
            assert(node_wf(node));
            if demote {
                let t = ns.remove(i).insert(i, node);
                ns.remove_ensures(i);
                ns.remove(i).insert_ensures(i, node);
                assert(t.len() == ns.len());
                assert(forall|k: int| 0 <= k < i ==> t[k] == ns[k]);
                assert(t[i] == node);
                assert(forall|k: int| i < k < t.len() ==> t[k] == ns[k]);
                assert(forest_wf(t)) by {
                    assert(forall|j: int, k: int|
                        0 <= j < k < t.len() && j != i && k != i ==> pos_lt(
                            (#[trigger] t[j]).range.start,
                            (#[trigger] t[k]).range.start,
                        ) && pos_le(t[j].range.end, t[k].range.start));
                    assert(forall|j: int|
                        0 <= j < i ==> pos_lt((#[trigger] t[j]).range.start, node.range.start)
                            && pos_le(t[j].range.end, node.range.start));
                    assert(forall|k: int|
                        i < k < t.len() ==> pos_lt(node.range.start, (#[trigger] t[k]).range.start)
                            && pos_le(node.range.end, t[k].range.start));
                }
                assert(forall|lo: Position, hi: Position|
                    forest_within(ns, lo, hi) && pos_le(lo, item.range.start) && pos_le(
                        item.range.end,
                        hi,
                    ) ==> #[trigger] forest_within(t, lo, hi));
            } else {
                let t = ns.insert(i, node);
                ns.insert_ensures(i, node);
                assert(forest_wf(t)) by {
                    assert(forall|j: int, k: int|
                        0 <= j < k < t.len() && j != i && k != i ==> pos_lt(
                            (#[trigger] t[j]).range.start,
                            (#[trigger] t[k]).range.start,
                        ) && pos_le(t[j].range.end, t[k].range.start));
                    assert(forall|j: int|
                        0 <= j < i ==> pos_lt((#[trigger] t[j]).range.start, node.range.start)
                            && pos_le(t[j].range.end, node.range.start));
                    assert(forall|k: int|
                        i < k < t.len() ==> pos_lt(node.range.start, (#[trigger] t[k]).range.start)
                            && pos_le(node.range.end, t[k].range.start));
                }
                assert(forall|lo: Position, hi: Position|
                    forest_within(ns, lo, hi) && pos_le(lo, item.range.start) && pos_le(
                        item.range.end,
                        hi,
                    ) ==> #[trigger] forest_within(t, lo, hi));
            }
        }
    }
}

/// Repairing the same endpoint twice in a row does not duplicate it: when a
/// repair has just inserted the item, running the same repair on the result
/// finds the symbol and leaves the outline as it is.
pub proof fn lemma_repair_idempotent(ns: Seq<SymNode>, item: SymNode, nested: bool)
    requires
        forest_wf(ns),
    ensures
        match spec_repair(ns, item, nested) {
            RepairOutcome::Inserted(t) => spec_repair(t, item, nested) is Found,
            _ => true,
        },
    decreases forest_height(ns),
{
    let p = item.range.start;
    let i = idx_lt(ns, p);
    lemma_idx_lt_sorted(ns, p);
    if 0 <= i < ns.len() && ns[i].range.start == p {
    } else if 0 < i <= ns.len() && pos_lt(item.range.end, ns[i - 1].range.end) {
        if is_func_like(ns[i - 1].kind) {
            let pred = ns[i - 1];
            lemma_forest_height_mem(ns, i - 1);
            lemma_repair_idempotent(pred.children, item, true);
            match spec_repair(pred.children, item, true) {
                RepairOutcome::Inserted(cs) => {
                    let node = SymNode { children: cs, ..pred };
                    let t = ns.update(i - 1, node);
                    assert forall|a: int, b: int| 0 <= a < b < t.len() implies pos_lt(
                        (#[trigger] t[a]).range.start,
                        (#[trigger] t[b]).range.start,
                    ) by {
                        assert(t[a].range == ns[a].range);
                        assert(t[b].range == ns[b].range);
                    }
                    lemma_idx_lt_sorted(t, p);
                    assert forall|j: int| 0 <= j < i implies pos_lt(
                        (#[trigger] t[j]).range.start,
                        p,
                    ) by {
                        assert(t[j].range == ns[j].range);
                    }
                    assert forall|j: int| i <= j < t.len() implies !pos_lt(
                        (#[trigger] t[j]).range.start,
                        p,
                    ) by {
                        assert(t[j].range == ns[j].range);
                    }
                    lemma_idx_lt_is(t, p, i);
                    assert(t[i - 1].range == pred.range);
                    if 0 <= i < t.len() && t[i].range.start == p {
                        assert(ns[i].range.start == p);
                    }
                    assert(spec_repair(t, item, nested) is Found);
                },
                _ => {},
            }
        }
    } else if !nested {
    } else if !(0 <= i <= ns.len()) {
    } else {
        let demote = i < ns.len() && pos_lt(item.range.start, ns[i].range.start) && pos_lt(
            ns[i].range.end,
            item.range.end,
        );
        let pred_ok = i == 0 || pos_le(ns[i - 1].range.end, item.range.start);
        let nxt = if demote {
            i + 1
        } else {
            i
        };
        let next_ok = nxt >= ns.len() || pos_le(item.range.end, ns[nxt].range.start);
        if range_wf(item.range) && pred_ok && next_ok {
            let node = SymNode {
                children: if demote {
                    seq![ns[i]]
                } else {
                    Seq::empty()
                },
                ..item
            };
            if demote {
                let t = ns.remove(i).insert(i, node);
                ns.remove_ensures(i);
                ns.remove(i).insert_ensures(i, node);
                assert(t.len() == ns.len());
                assert(forall|k: int| 0 <= k < i ==> t[k] == ns[k]);
                assert(t[i] == node);
                assert(forall|k: int| i < k < t.len() ==> t[k] == ns[k]);
                assert forall|j: int| 0 <= j < i implies pos_lt(
                    (#[trigger] t[j]).range.start,
                    p,
                ) by {
                    assert(t[j] == ns[j]);
                }
                assert forall|j: int| i <= j < t.len() implies !pos_lt(
                    (#[trigger] t[j]).range.start,
                    p,
                ) by {
                    if j > i {
                        assert(t[j] == ns[j]);
                    }
                }
                lemma_idx_lt_is(t, p, i);
                assert(t[i].range.start == p);
                assert(spec_repair(t, item, nested) is Found);
            } else {
                let t = ns.insert(i, node);
                ns.insert_ensures(i, node);
                assert forall|j: int| 0 <= j < i implies pos_lt(
                    (#[trigger] t[j]).range.start,
                    p,
                ) by {
                    assert(t[j] == ns[j]);
                }
                assert forall|j: int| i <= j < t.len() implies !pos_lt(
                    (#[trigger] t[j]).range.start,
                    p,
                ) by {
                    if j > i {
                        assert(t[j] == ns[j - 1]);
                    }
                }
                lemma_idx_lt_is(t, p, i);
                assert(t[i].range.start == p);
                assert(spec_repair(t, item, nested) is Found);
            }
        }
    }
}

/// Finds where `p` belongs among siblings sorted by ascending start, by
/// binary search: whether some sibling starts exactly at `p`, and the index
/// splitting earlier starts from later ones.
fn find_insert_idx(sibs: &Vec<DocumentSymbol>, p: Position) -> (res: (bool, usize))
    requires
        forall|i: int, j: int|
            0 <= i < j < sibs@.len() ==> pos_lt(
                (#[trigger] sibs@[i]).range.start,
                (#[trigger] sibs@[j]).range.start,
            ),
    ensures
        res.1 <= sibs@.len(),
        forall|j: int| 0 <= j < res.1 ==> pos_lt((#[trigger] sibs@[j]).range.start, p),
        forall|j: int| res.1 <= j < sibs@.len() ==> !pos_lt((#[trigger] sibs@[j]).range.start, p),
        res.0 == (res.1 < sibs@.len() && sibs@[res.1 as int].range.start == p),
{
    let mut lo: usize = 0;
    let mut hi: usize = sibs.len();
    while lo < hi
        invariant
            lo <= hi <= sibs@.len(),
            forall|j: int| 0 <= j < lo ==> pos_lt((#[trigger] sibs@[j]).range.start, p),
            forall|j: int| hi <= j < sibs@.len() ==> !pos_lt((#[trigger] sibs@[j]).range.start, p),
            forall|i: int, j: int|
                0 <= i < j < sibs@.len() ==> pos_lt(
                    (#[trigger] sibs@[i]).range.start,
                    (#[trigger] sibs@[j]).range.start,
                ),
        decreases hi - lo,
    {
        let mid = lo + (hi - lo) / 2;
        if sibs[mid].range.start.lt(p) {
            lo = mid + 1;
        } else {
            hi = mid;
        }
    }
    let found = lo < sibs.len() && sibs[lo].range.start == p;
    (found, lo)
}

fn clone_tags(tags: &Option<Vec<SymbolTag>>) -> Option<Vec<SymbolTag>> {
    match tags {
        Option::None => Option::None,
        Option::Some(v) => {
            let mut out: Vec<SymbolTag> = Vec::new();
            let mut i: usize = 0;
            while i < v.len()
                decreases v@.len() - i,
            {
                out.push(v[i]);
                i = i + 1;
            }
            Option::Some(out)
        },
    }
}

fn clone_detail(detail: &Option<String>) -> (r: Option<String>)
    ensures
        r == *detail,
{
    match detail {
        Option::None => Option::None,
        Option::Some(s) => Option::Some(s.clone()),
    }
}

/// The nested-symbol repair on one sibling list, mirroring `spec_repair`.
#[verifier::rlimit(60)]
fn repair_insert(sibs: &mut Vec<DocumentSymbol>, item: &CallHierarchyItem, nested: bool) -> (r:
    bool)
    requires
        forest_wf(sibs_view(old(sibs)@)),
    ensures
        forest_wf(sibs_view(final(sibs)@)),
        match spec_repair(sibs_view(old(sibs)@), item_node(*item), nested) {
            RepairOutcome::Found => r == true && sibs_view(final(sibs)@) == sibs_view(
                old(sibs)@,
            ),
            RepairOutcome::Failed => r == false && sibs_view(final(sibs)@) == sibs_view(
                old(sibs)@,
            ),
            RepairOutcome::Inserted(t) => r == true && sibs_view(final(sibs)@) == t,
        },
    decreases forest_height(sibs_view(sibs@)),
{
    broadcast use lemma_sibs_view_index;

    let ghost ns = sibs_view(sibs@);
    let ghost it = item_node(*item);
    proof {
        lemma_idx_lt_sorted(ns, it.range.start);
        assert forall|a: int, b: int| 0 <= a < b < sibs@.len() implies pos_lt(
            (#[trigger] sibs@[a]).range.start,
            (#[trigger] sibs@[b]).range.start,
        ) by {
            assert(ns[a] == sym_view(sibs@[a]));
            assert(ns[b] == sym_view(sibs@[b]));
            assert(pos_lt(ns[a].range.start, ns[b].range.start));
        }
    }
    let (found, i) = find_insert_idx(sibs, item.range.start);
    proof {
        lemma_idx_lt_is(ns, it.range.start, i as int);
    }
    if found {
        return true;
    }
    if i > 0 {
        let descend = item.range.end.lt(sibs[i - 1].range.end);
        if descend {
            let k = sibs[i - 1].kind;
            if !(matches!(k, SymbolKind::Function | SymbolKind::Method)) {
                return false;
            }
            proof {
                lemma_forest_height_mem(ns, i - 1);
                lemma_repair_preserves_wf(ns[i - 1].children, it, true);
            }
            let r = repair_insert(&mut sibs[i - 1].children, item, true);
            proof {
                let pred = ns[i - 1];
                assert(sibs@ == old(sibs)@.update(i - 1, sibs@[i - 1]));
                assert(sym_view(sibs@[i - 1]) == SymNode {
                    children: sibs_view(sibs@[i - 1].children@),
                    ..pred
                });
                match spec_repair(pred.children, it, true) {
                    RepairOutcome::Inserted(cs) => {
                        assert(sibs_view(sibs@) =~= ns.update(
                            i - 1,
                            SymNode { children: cs, ..pred },
                        ));
                        lemma_repair_preserves_wf(ns, it, nested);
                    },
                    _ => {
                        assert(sibs_view(sibs@[i - 1].children@) == pred.children);
                        assert(sym_view(sibs@[i - 1]) == pred);
                        assert(sibs_view(sibs@) =~= ns);
                    },
                }
            }
            return r;
        }
    }
    if !nested {
        return false;
    }
    let do_demote = if i < sibs.len() {
        item.range.start.lt(sibs[i].range.start) && sibs[i].range.end.lt(item.range.end)
    } else {
        false
    };
    let range_ok = item.range.start.le(item.range.end);
    let pred_ok = if i > 0 {
        sibs[i - 1].range.end.le(item.range.start)
    } else {
        true
    };
    let nxt = if do_demote {
        i + 1
    } else {
        i
    };
    let next_ok = if nxt < sibs.len() {
        item.range.end.le(sibs[nxt].range.start)
    } else {
        true
    };
    if !(range_ok && pred_ok && next_ok) {
        return false;
    }
    let mut children: Vec<DocumentSymbol> = Vec::new();
    if do_demote {
        let moved = sibs.remove(i);
        children.push(moved);
    }
    let node = DocumentSymbol {
        name: item.name.clone(),
        detail: clone_detail(&item.detail),
        kind: item.kind,
        tags: clone_tags(&item.tags),
        range: item.range,
        selection_range: item.selection_range,
        children,
    };
    let ghost node_spec = SymNode {
        children: if do_demote {
            seq![ns[i as int]]
        } else {
            Seq::empty()
        },
        ..it
    };
    proof {
        if do_demote {
            assert(sibs_view(node.children@) =~= seq![ns[i as int]]);
        } else {
            assert(sibs_view(node.children@) =~= Seq::<SymNode>::empty());
        }
        assert(sym_view(node) == node_spec);
    }
    sibs.insert(i, node);
    proof {
        if do_demote {
            old(sibs)@.remove_ensures(i as int);
            old(sibs)@.remove(i as int).insert_ensures(i as int, node);
            ns.remove_ensures(i as int);
            ns.remove(i as int).insert_ensures(i as int, node_spec);
            assert(sibs_view(sibs@) =~= ns.remove(i as int).insert(i as int, node_spec));
        } else {
            old(sibs)@.insert_ensures(i as int, node);
            ns.insert_ensures(i as int, node_spec);
            assert(sibs_view(sibs@) =~= ns.insert(i as int, node_spec));
        }
        lemma_repair_preserves_wf(ns, it, nested);
    }
    true
}

/// Repairs `file`'s outline so that the caller symbol behind `item` exists as
/// a nested node, when a qualifying container is present; reports whether the
/// outline now shows the symbol.  On failure the outline is unchanged.
pub fn try_insert_symbol(item: &CallHierarchyItem, file: &mut FileOutline) -> (r: bool)
    requires
        outline_wf(*old(file)),
    ensures
        outline_wf(*final(file)),
        final(file).id == old(file).id,
        final(file).path == old(file).path,
        match spec_repair(outline_view(*old(file)).symbols, item_node(*item), false) {
            RepairOutcome::Found => r == true && outline_view(*final(file)).symbols
                == outline_view(*old(file)).symbols,
            RepairOutcome::Failed => r == false && outline_view(*final(file)).symbols
                == outline_view(*old(file)).symbols,
            RepairOutcome::Inserted(t) => r == true && outline_view(*final(file)).symbols == t,
        },
{
    repair_insert(&mut file.symbols, item, false)
}

} // verus!
