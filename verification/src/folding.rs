//! Folding and unfolding directories of the browser: how the lines correspond to
//! the tree when no two items share a path, and the laws of undoing a fold.
use vstd::prelude::*;
use vstd::multiset::Multiset;
use crate::app::{
    AppState, BrowserAction, contains_path, index_of_path, law_set_expanded_keeps_paths,
    law_set_expanded_last_wins, law_set_expanded_unchanged, lemma_index_of_path,
    lemma_index_of_path_found, node_with_path, set_expanded,
};
use crate::library::{
    BrowserEntryKind, EntryModel, ListedEntry, NodeModel, entry_of, expand_top, flattened, kept,
    kept_models, model_of, shows_children, sort_models, tree_of,
};
use crate::sorting::{insert_sorted_by, insertion_sorted};

verus! {

/// Whether no two nodes of `nodes` and their sub-trees share a path.
pub open spec fn unique_paths(nodes: Seq<NodeModel>) -> bool
    decreases nodes,
{
    if nodes.len() == 0 {
        true
    } else {
        let node = nodes[0];
        let rest = nodes.subrange(1, nodes.len() as int);
        &&& !contains_path(node.children, node.path)
        &&& !contains_path(rest, node.path)
        &&& forall|q: Seq<char>|
            #![trigger contains_path(node.children, q), contains_path(rest, q)]
            contains_path(node.children, q) ==> !contains_path(rest, q)
        &&& unique_paths(node.children)
        &&& unique_paths(rest)
    }
}

/// The lines of the first node's children, as `flattened` lists them below it.
spec fn child_lines(node: NodeModel, depth: int) -> Seq<EntryModel> {
    if shows_children(node) {
        flattened(node.children, depth + 1)
    } else {
        seq![]
    }
}

proof fn lemma_flattened_parts(nodes: Seq<NodeModel>, depth: int)
    requires
        nodes.len() > 0,
    ensures
        flattened(nodes, depth) == seq![entry_of(nodes[0], depth)] + child_lines(nodes[0], depth)
            + flattened(nodes.subrange(1, nodes.len() as int), depth),
{
}

/// Every line shows a node of the tree.
proof fn lemma_line_paths_contained(nodes: Seq<NodeModel>, depth: int)
    ensures
        forall|j: int|
            0 <= j < flattened(nodes, depth).len() ==> contains_path(
                nodes,
                #[trigger] flattened(nodes, depth)[j].path,
            ),
    decreases nodes,
{
    if nodes.len() > 0 {
        let node = nodes[0];
        let rest = nodes.subrange(1, nodes.len() as int);
        lemma_flattened_parts(nodes, depth);
        if shows_children(node) {
            assert(decreases_to!(nodes => nodes[0]));
            lemma_line_paths_contained(node.children, depth + 1);
        }
        lemma_line_paths_contained(rest, depth);
        let kids = child_lines(node, depth);
        let tail = flattened(rest, depth);
        let all = flattened(nodes, depth);
        assert forall|j: int| 0 <= j < all.len() implies contains_path(nodes, #[trigger] all[j].path) by {
            if j == 0 {
            } else if j < 1 + kids.len() {
                assert(all[j] == kids[j - 1]);
                assert(contains_path(node.children, kids[j - 1].path));
            } else {
                assert(all[j] == tail[j - 1 - kids.len()]);
                assert(contains_path(rest, tail[j - 1 - kids.len()].path));
            }
        }
    }
}

/// With unique paths, each line shows the node that its path finds, and no two
/// lines share a path.
proof fn lemma_lines_match_nodes(nodes: Seq<NodeModel>, depth: int)
    requires
        unique_paths(nodes),
    ensures
        forall|j: int|
            0 <= j < flattened(nodes, depth).len() ==> (node_with_path(
                nodes,
                #[trigger] flattened(nodes, depth)[j].path,
            ) matches Some(n) && n.kind == flattened(nodes, depth)[j].kind && n.expanded
                == flattened(nodes, depth)[j].expanded),
        forall|i: int, j: int|
            0 <= i < j < flattened(nodes, depth).len() ==> #[trigger] flattened(nodes, depth)[i].path
                != #[trigger] flattened(nodes, depth)[j].path,
    decreases nodes,
{
    if nodes.len() > 0 {
        let node = nodes[0];
        let rest = nodes.subrange(1, nodes.len() as int);
        lemma_flattened_parts(nodes, depth);
        assert(decreases_to!(nodes => nodes[0]));
        if shows_children(node) {
            lemma_lines_match_nodes(node.children, depth + 1);
            lemma_line_paths_contained(node.children, depth + 1);
        }
        lemma_lines_match_nodes(rest, depth);
        lemma_line_paths_contained(rest, depth);
        let kids = child_lines(node, depth);
        let tail = flattened(rest, depth);
        let all = flattened(nodes, depth);
        assert forall|j: int| 0 <= j < all.len() implies (node_with_path(nodes, #[trigger] all[j].path) matches Some(
            n,
        ) && n.kind == all[j].kind && n.expanded == all[j].expanded) by {
            if j == 0 {
            } else if j < 1 + kids.len() {
                let q = kids[j - 1].path;
                assert(all[j] == kids[j - 1]);
                assert(contains_path(node.children, q));
                assert(node.path != q);
            } else {
                let q = tail[j - 1 - kids.len()].path;
                assert(all[j] == tail[j - 1 - kids.len()]);
                assert(contains_path(rest, q));
                assert(node.path != q);
                assert(!contains_path(node.children, q));
            }
        }
        assert forall|i: int, j: int| 0 <= i < j < all.len() implies #[trigger] all[i].path
            != #[trigger] all[j].path by {
            if i == 0 {
                if j < 1 + kids.len() {
                    assert(all[j] == kids[j - 1]);
                    assert(contains_path(node.children, kids[j - 1].path));
                } else {
                    assert(all[j] == tail[j - 1 - kids.len()]);
                    assert(contains_path(rest, tail[j - 1 - kids.len()].path));
                }
            } else if i < 1 + kids.len() {
                assert(all[i] == kids[i - 1]);
                if j < 1 + kids.len() {
                    assert(all[j] == kids[j - 1]);
                } else {
                    let q = kids[i - 1].path;
                    assert(all[j] == tail[j - 1 - kids.len()]);
                    assert(contains_path(node.children, q));
                    assert(contains_path(rest, tail[j - 1 - kids.len()].path));
                    if q == tail[j - 1 - kids.len()].path {
                        assert(!contains_path(rest, q));
                    }
                }
            } else {
                assert(all[i] == tail[i - 1 - kids.len()]);
                assert(all[j] == tail[j - 1 - kids.len()]);
            }
        }
    }
}

/// The first and remaining nodes of `set_expanded`, by its three cases.
proof fn lemma_set_expanded_parts(nodes: Seq<NodeModel>, target: Seq<char>, expanded: bool)
    requires
        nodes.len() > 0,
    ensures
        ({
            let node = nodes[0];
            let rest = nodes.subrange(1, nodes.len() as int);
            let new = set_expanded(nodes, target, expanded);
            &&& new.len() == nodes.len()
            &&& new.len() > 0
            &&& new[0].path == node.path
            &&& new[0].name == node.name
            &&& new[0].kind == node.kind
            &&& if node.path == target {
                &&& new[0].children == node.children
                &&& new[0].expanded == (if node.kind == BrowserEntryKind::Directory {
                    expanded
                } else {
                    node.expanded
                })
                &&& new.subrange(1, new.len() as int) == rest
            } else if contains_path(node.children, target) {
                &&& new[0].children == set_expanded(node.children, target, expanded)
                &&& new[0].expanded == node.expanded
                &&& new.subrange(1, new.len() as int) == rest
            } else {
                &&& new[0] == node
                &&& new.subrange(1, new.len() as int) == set_expanded(rest, target, expanded)
            }
        }),
{
    let node = nodes[0];
    let rest = nodes.subrange(1, nodes.len() as int);
    let new = set_expanded(nodes, target, expanded);
    law_set_expanded_keeps_paths(nodes, target, expanded, target);
    law_set_expanded_keeps_paths(rest, target, expanded, target);
    if node.path == target || contains_path(node.children, target) {
        assert(new.subrange(1, new.len() as int) =~= rest);
    } else {
        assert(new.subrange(1, new.len() as int) =~= set_expanded(rest, target, expanded));
    }
}

/// Folding or unfolding keeps paths unique.
pub proof fn law_folding_keeps_unique_paths(nodes: Seq<NodeModel>, target: Seq<char>, expanded: bool)
    requires
        unique_paths(nodes),
    ensures
        unique_paths(set_expanded(nodes, target, expanded)),
    decreases nodes,
{
    if nodes.len() > 0 {
        let node = nodes[0];
        let rest = nodes.subrange(1, nodes.len() as int);
        let new = set_expanded(nodes, target, expanded);
        let first = new[0];
        let new_rest = new.subrange(1, new.len() as int);
        lemma_set_expanded_parts(nodes, target, expanded);
        assert(decreases_to!(nodes => nodes[0]));
        if node.path == target {
        } else if contains_path(node.children, target) {
            law_folding_keeps_unique_paths(node.children, target, expanded);
            law_set_expanded_keeps_paths(node.children, target, expanded, node.path);
            assert forall|q: Seq<char>|
                #![trigger contains_path(first.children, q), contains_path(new_rest, q)]
                contains_path(first.children, q) implies !contains_path(new_rest, q) by {
                law_set_expanded_keeps_paths(node.children, target, expanded, q);
                assert(contains_path(node.children, q));
            }
        } else {
            law_folding_keeps_unique_paths(rest, target, expanded);
            law_set_expanded_keeps_paths(rest, target, expanded, node.path);
            assert forall|q: Seq<char>|
                #![trigger contains_path(first.children, q), contains_path(new_rest, q)]
                contains_path(first.children, q) implies !contains_path(new_rest, q) by {
                law_set_expanded_keeps_paths(rest, target, expanded, q);
                assert(contains_path(rest, q) == contains_path(new_rest, q));
            }
        }
    }
}

/// After folding or unfolding, the node at `target` is the same node with the
/// new state when it is a directory.
proof fn lemma_set_expanded_node(nodes: Seq<NodeModel>, target: Seq<char>, expanded: bool)
    requires
        node_with_path(nodes, target) is Some,
    ensures
        node_with_path(set_expanded(nodes, target, expanded), target) matches Some(m) && ({
            let n = node_with_path(nodes, target)->0;
            &&& m.kind == n.kind
            &&& m.expanded == (if n.kind == BrowserEntryKind::Directory {
                expanded
            } else {
                n.expanded
            })
        }),
    decreases nodes,
{
    let node = nodes[0];
    let rest = nodes.subrange(1, nodes.len() as int);
    let new = set_expanded(nodes, target, expanded);
    lemma_set_expanded_parts(nodes, target, expanded);
    assert(decreases_to!(nodes => nodes[0]));
    if node.path == target {
    } else if contains_path(node.children, target) {
        lemma_set_expanded_node(node.children, target, expanded);
        law_set_expanded_keeps_paths(node.children, target, expanded, target);
    } else {
        lemma_set_expanded_node(rest, target, expanded);
        assert(!contains_path(new[0].children, target));
    }
}

/// A line with path `target` still shows after the node at `target` is folded
/// or unfolded; the result is the index of such a line.
proof fn lemma_set_expanded_keeps_line(
    nodes: Seq<NodeModel>,
    target: Seq<char>,
    expanded: bool,
    depth: int,
    j: int,
) -> (k: int)
    requires
        0 <= j < flattened(nodes, depth).len(),
        flattened(nodes, depth)[j].path == target,
    ensures
        0 <= k < flattened(set_expanded(nodes, target, expanded), depth).len(),
        flattened(set_expanded(nodes, target, expanded), depth)[k].path == target,
    decreases nodes,
{
    let node = nodes[0];
    let rest = nodes.subrange(1, nodes.len() as int);
    let new = set_expanded(nodes, target, expanded);
    lemma_set_expanded_parts(nodes, target, expanded);
    lemma_flattened_parts(nodes, depth);
    lemma_flattened_parts(new, depth);
    assert(decreases_to!(nodes => nodes[0]));
    let kids = child_lines(node, depth);
    let tail = flattened(rest, depth);
    let all = flattened(nodes, depth);
    let new_all = flattened(new, depth);
    let new_kids = child_lines(new[0], depth);
    let new_tail = flattened(new.subrange(1, new.len() as int), depth);
    if node.path == target {
        0
    } else if contains_path(node.children, target) {
        if j < 1 + kids.len() {
            assert(all[j] == kids[j - 1]);
            let k1 = lemma_set_expanded_keeps_line(node.children, target, expanded, depth + 1, j - 1);
            assert(new_all[1 + k1] == new_kids[k1]);
            1 + k1
        } else {
            let idx = j - 1 - kids.len();
            assert(all[j] == tail[idx]);
            assert(new_tail == tail);
            assert(new_all[1 + new_kids.len() + idx] == new_tail[idx]);
            1 + new_kids.len() + idx
        }
    } else {
        if j < 1 + kids.len() {
            assert(all[j] == kids[j - 1]);
            lemma_line_paths_contained(node.children, depth + 1);
            assert(contains_path(node.children, kids[j - 1].path));
            0
        } else {
            assert(all[j] == tail[j - 1 - kids.len()]);
            let k1 = lemma_set_expanded_keeps_line(rest, target, expanded, depth, j - 1 - kids.len());
            assert(new_kids == kids);
            assert(new_all[1 + kids.len() + k1] == new_tail[k1]);
            1 + kids.len() + k1
        }
    }
}

proof fn lemma_index_of_path_exists(entries: Seq<EntryModel>, path: Seq<char>, k: int)
    requires
        0 <= k < entries.len(),
        entries[k].path == path,
    ensures
        index_of_path(entries, path) >= 0,
    decreases k,
{
    if k > 0 && entries[0].path != path {
        let rest = entries.subrange(1, entries.len() as int);
        lemma_index_of_path_exists(rest, path, k - 1);
    }
}

/// Folding or unfolding the selected directory keeps it selected, now in the
/// new state, when no two items of the tree share a path.
proof fn lemma_step_keeps_selected_line(s0: AppState, s1: AppState, p: Seq<char>, x: bool)
    requires
        s0.wf(),
        unique_paths(s0@.tree),
        s0.selected_path() == Some(p),
        s0@.lines[s0@.selection].kind == BrowserEntryKind::Directory,
        AppState::expansion_step(s0, s1, p, x),
    ensures
        unique_paths(s1@.tree),
        s1.selected_path() == Some(p),
        s1@.lines[s1@.selection].kind == BrowserEntryKind::Directory,
        s1@.lines[s1@.selection].expanded == x,
        node_with_path(s0@.tree, p) matches Some(n) && n.kind == BrowserEntryKind::Directory
            && n.expanded == s0@.lines[s0@.selection].expanded,
{
    s0.lemma_selection_bounded();
    s0.lemma_entries_of_tree();
    let t0 = s0@.tree;
    let i = s0@.selection;
    lemma_lines_match_nodes(t0, 0);
    assert(flattened(t0, 0)[i].path == p);
    law_folding_keeps_unique_paths(t0, p, x);
    let k = lemma_set_expanded_keeps_line(t0, p, x, 0, i);
    let l1 = s1@.lines;
    lemma_index_of_path_exists(l1, p, k);
    lemma_index_of_path_found(l1, p);
    let idx = index_of_path(l1, p);
    assert(s1@.selection == idx);
    lemma_lines_match_nodes(s1@.tree, 0);
    assert(l1[idx].path == p);
    lemma_set_expanded_node(t0, p, x);
}

/// Folding or unfolding the selected directory and then setting it back to the
/// state it had restores everything the browser shows.
proof fn lemma_step_back(s0: AppState, s1: AppState, s2: AppState, p: Seq<char>, e: bool)
    requires
        s0.wf(),
        unique_paths(s0@.tree),
        s0.selected_path() == Some(p),
        s0@.lines[s0@.selection].kind == BrowserEntryKind::Directory,
        s0@.lines[s0@.selection].expanded == e,
        AppState::expansion_step(s0, s1, p, !e),
        AppState::expansion_step(s1, s2, p, e),
    ensures
        s2@ == s0@,
{
    lemma_step_keeps_selected_line(s0, s1, p, !e);
    s0.lemma_selection_bounded();
    s0.lemma_entries_of_tree();
    let t0 = s0@.tree;
    let i = s0@.selection;
    law_set_expanded_last_wins(t0, p, !e, e);
    law_set_expanded_unchanged(t0, p, e);
    assert(s2@.tree == t0);
    assert(s2@.lines == s0@.lines);
    lemma_lines_match_nodes(t0, 0);
    let l0 = s0@.lines;
    assert forall|m: int| 0 <= m < i implies l0[m].path != p by {
        assert(l0[m].path != l0[i].path);
    }
    lemma_index_of_path(l0, p, i);
    assert(s2@.selection == i);
    assert(s2@ == s0@);
}

/// Pressing Enter twice on a selected directory restores everything the browser
/// shows (the selection, the tree, the lines, the item count and the playing
/// file), when no two items of the library tree share a path.
pub proof fn law_enter_twice_restores(
    s0: AppState,
    s1: AppState,
    s2: AppState,
    first: BrowserAction,
    second: BrowserAction,
)
    requires
        s0.wf(),
        unique_paths(s0@.tree),
        s0.selected_path() is Some,
        s0@.lines[s0@.selection].kind == BrowserEntryKind::Directory,
        AppState::activate_step(s0, s1, first),
        AppState::activate_step(s1, s2, second),
    ensures
        first == BrowserAction::ToggledDirectory,
        second == BrowserAction::ToggledDirectory,
        s2@ == s0@,
{
    let p = s0.selected_path()->0;
    let e = s0@.lines[s0@.selection].expanded;
    lemma_step_keeps_selected_line(s0, s1, p, !e);
    assert(!!e == e);
    lemma_step_back(s0, s1, s2, p, e);
}

/// Left after a Right that unfolded the selected directory folds it again and
/// restores everything the browser shows, when no two items of the library
/// tree share a path.
pub proof fn law_right_then_left_restores(s0: AppState, s1: AppState, s2: AppState)
    requires
        s0.wf(),
        unique_paths(s0@.tree),
        s0.right_moves(),
        AppState::right_step(s0, s1),
        AppState::left_step(s1, s2),
    ensures
        s1.left_moves(),
        s2@ == s0@,
{
    let p = s0.selected_path()->0;
    lemma_step_keeps_selected_line(s0, s1, p, true);
    lemma_step_back(s0, s1, s2, p, false);
}

/// The paths of all nodes of `nodes` and of their sub-trees, counted.
pub open spec fn node_paths(nodes: Seq<NodeModel>) -> Multiset<Seq<char>>
    decreases nodes,
{
    if nodes.len() == 0 {
        Multiset::empty()
    } else {
        Multiset::singleton(nodes[0].path).add(node_paths(nodes[0].children)).add(
            node_paths(nodes.subrange(1, nodes.len() as int)),
        )
    }
}

/// The paths of all items of a listing and of their sub-listings, counted.
pub open spec fn listed_paths(listing: Seq<ListedEntry>) -> Multiset<Seq<char>>
    decreases listing,
{
    if listing.len() == 0 {
        Multiset::empty()
    } else {
        Multiset::singleton(listing[0].path@).add(listed_paths(listing[0].children@)).add(
            listed_paths(listing.subrange(1, listing.len() as int)),
        )
    }
}

/// Whether no two items of a listing and its sub-listings share a path.
pub open spec fn distinct_listed_paths(listing: Seq<ListedEntry>) -> bool {
    forall|q: Seq<char>| #[trigger] listed_paths(listing).count(q) <= 1
}

proof fn lemma_node_paths_contains(nodes: Seq<NodeModel>, q: Seq<char>)
    ensures
        contains_path(nodes, q) == (node_paths(nodes).count(q) > 0),
    decreases nodes,
{
    if nodes.len() > 0 {
        assert(decreases_to!(nodes => nodes[0]));
        lemma_node_paths_contains(nodes[0].children, q);
        lemma_node_paths_contains(nodes.subrange(1, nodes.len() as int), q);
    }
}

proof fn lemma_unique_from_counts(nodes: Seq<NodeModel>)
    requires
        forall|q: Seq<char>| #[trigger] node_paths(nodes).count(q) <= 1,
    ensures
        unique_paths(nodes),
    decreases nodes,
{
    if nodes.len() > 0 {
        let node = nodes[0];
        let rest = nodes.subrange(1, nodes.len() as int);
        assert(decreases_to!(nodes => nodes[0]));
        assert forall|q: Seq<char>| #[trigger] node_paths(node.children).count(q) <= 1 by {
            assert(node_paths(nodes).count(q) <= 1);
        }
        assert forall|q: Seq<char>| #[trigger] node_paths(rest).count(q) <= 1 by {
            assert(node_paths(nodes).count(q) <= 1);
        }
        lemma_unique_from_counts(node.children);
        lemma_unique_from_counts(rest);
        assert(node_paths(nodes).count(node.path) <= 1);
        lemma_node_paths_contains(node.children, node.path);
        lemma_node_paths_contains(rest, node.path);
        assert forall|q: Seq<char>|
            #![trigger contains_path(node.children, q), contains_path(rest, q)]
            contains_path(node.children, q) implies !contains_path(rest, q) by {
            assert(node_paths(nodes).count(q) <= 1);
            lemma_node_paths_contains(node.children, q);
            lemma_node_paths_contains(rest, q);
        }
    }
}

proof fn lemma_node_paths_append(a: Seq<NodeModel>, b: Seq<NodeModel>)
    ensures
        node_paths(a + b) == node_paths(a).add(node_paths(b)),
    decreases a.len(),
{
    if a.len() == 0 {
        assert(a + b =~= b);
        assert(node_paths(a + b) =~= node_paths(a).add(node_paths(b)));
    } else {
        let rest = a.subrange(1, a.len() as int);
        lemma_node_paths_append(rest, b);
        assert((a + b).subrange(1, (a + b).len() as int) =~= rest + b);
        assert((a + b)[0] == a[0]);
        assert(node_paths(a + b) =~= node_paths(a).add(node_paths(b)));
    }
}

proof fn lemma_node_paths_insert(s: Seq<NodeModel>, x: NodeModel, le: spec_fn(NodeModel, NodeModel) -> bool)
    ensures
        node_paths(insert_sorted_by(s, x, le)) == node_paths(s).add(node_paths(seq![x])),
    decreases s.len(),
{
    if s.len() == 0 {
        assert(s + seq![x] =~= seq![x]);
        lemma_node_paths_append(s, seq![x]);
    } else if le(s.last(), x) {
        assert(s.push(x) =~= s + seq![x]);
        lemma_node_paths_append(s, seq![x]);
    } else {
        let d = s.drop_last();
        let last = s.last();
        lemma_node_paths_insert(d, x, le);
        let inner = insert_sorted_by(d, x, le);
        assert(inner.push(last) =~= inner + seq![last]);
        lemma_node_paths_append(inner, seq![last]);
        assert(s =~= d + seq![last]);
        lemma_node_paths_append(d, seq![last]);
        assert(node_paths(insert_sorted_by(s, x, le)) =~= node_paths(s).add(node_paths(seq![x])));
    }
}

proof fn lemma_node_paths_sorted(s: Seq<NodeModel>, le: spec_fn(NodeModel, NodeModel) -> bool)
    ensures
        node_paths(insertion_sorted(s, le)) == node_paths(s),
    decreases s.len(),
{
    if s.len() == 0 {
    } else {
        let d = s.drop_last();
        lemma_node_paths_sorted(d, le);
        lemma_node_paths_insert(insertion_sorted(d, le), s.last(), le);
        assert(s =~= d + seq![s.last()]);
        lemma_node_paths_append(d, seq![s.last()]);
    }
}

proof fn lemma_node_paths_expand_top(nodes: Seq<NodeModel>)
    ensures
        node_paths(expand_top(nodes)) == node_paths(nodes),
    decreases nodes.len(),
{
    if nodes.len() > 0 {
        let rest = nodes.subrange(1, nodes.len() as int);
        let top = expand_top(nodes);
        lemma_node_paths_expand_top(rest);
        assert(top.subrange(1, top.len() as int) =~= expand_top(rest));
    }
}

/// Each path occurs in the nodes of the kept items of a listing at most as often
/// as among the listed items.
proof fn lemma_kept_paths(listing: Seq<ListedEntry>)
    ensures
        forall|q: Seq<char>| #[trigger] node_paths(kept_models(listing)).count(q) <= listed_paths(listing).count(q),
    decreases listing,
{
    if listing.len() > 0 {
        let entry = listing[0];
        let rest = listing.subrange(1, listing.len() as int);
        lemma_kept_paths(rest);
        assert(decreases_to!(listing => listing[0]));
        assert(decreases_to!(listing[0] => listing[0].children));
        assert(decreases_to!(listing[0].children => listing[0].children@));
        lemma_kept_paths(entry.children@);
        let head = if kept(entry) {
            seq![model_of(entry)]
        } else {
            seq![]
        };
        lemma_node_paths_append(head, kept_models(rest));
        lemma_node_paths_sorted(kept_models(entry.children@), crate::library::node_order());
        assert(kept_models(listing) == head + kept_models(rest));
        assert forall|q: Seq<char>| #[trigger] node_paths(kept_models(listing)).count(q)
            <= listed_paths(listing).count(q) by {
            assert(node_paths(kept_models(rest)).count(q) <= listed_paths(rest).count(q));
            assert(listed_paths(listing).count(q) == (if entry.path@ == q {
                1nat
            } else {
                0nat
            }) + listed_paths(entry.children@).count(q) + listed_paths(rest).count(q));
            if kept(entry) {
                let m = model_of(entry);
                assert(head.subrange(1, 1) =~= Seq::<NodeModel>::empty());
                assert(node_paths(Seq::<NodeModel>::empty()) =~= Multiset::empty());
                assert(node_paths(head).count(q) == (if m.path == q {
                    1nat
                } else {
                    0nat
                }) + node_paths(m.children).count(q));
                if entry.is_dir {
                    assert(m.children == sort_models(kept_models(entry.children@)));
                    assert(node_paths(kept_models(entry.children@)).count(q) <= listed_paths(
                        entry.children@,
                    ).count(q));
                } else {
                    assert(m.children =~= Seq::<NodeModel>::empty());
                }
            } else {
                assert(node_paths(head) =~= Multiset::empty());
            }
        }
    }
}

/// A listing in which no two items share a path gives a browser tree, as built
/// at start-up, in which no two nodes share a path.
pub proof fn law_listing_gives_unique_paths(listing: Seq<ListedEntry>)
    requires
        distinct_listed_paths(listing),
    ensures
        unique_paths(expand_top(tree_of(listing))),
{
    lemma_kept_paths(listing);
    lemma_node_paths_sorted(kept_models(listing), crate::library::node_order());
    lemma_node_paths_expand_top(tree_of(listing));
    let t = expand_top(tree_of(listing));
    assert forall|q: Seq<char>| #[trigger] node_paths(t).count(q) <= 1 by {
        assert(listed_paths(listing).count(q) <= 1);
        assert(node_paths(kept_models(listing)).count(q) <= listed_paths(listing).count(q));
    }
    lemma_unique_from_counts(t);
}

} // verus!
