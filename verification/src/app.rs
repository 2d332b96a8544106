use vstd::prelude::*;
use crate::library::{
    BrowserEntry, BrowserEntryKind, EntryModel, ListedEntry, NodeModel, TreeNode, build_tree,
    entry_view, entry_views, expand_first_level, expand_top, flatten_tree, flattened,
    law_tree_of_listing, lemma_views, lemma_views_ext, node_view, shown_node, tree_of, views,
};

verus! {

/// Whether audio is currently running, held, or absent.
#[derive(Debug, Clone, Copy, PartialEq, Eq, Structural)]
pub enum PlaybackState {
    Stopped,
    Playing,
    Paused,
}

/// The state that one press of the pause key leads to.
pub open spec fn toggled(state: PlaybackState) -> PlaybackState {
    match state {
        PlaybackState::Playing => PlaybackState::Paused,
        PlaybackState::Paused => PlaybackState::Playing,
        PlaybackState::Stopped => PlaybackState::Stopped,
    }
}

impl PlaybackState {
    /// Switches between playing and paused; a stopped player stays stopped.
    pub fn toggle_pause(&mut self)
        ensures
            *final(self) == toggled(*old(self)),
    {
        *self = match *self {
            PlaybackState::Playing => PlaybackState::Paused,
            PlaybackState::Paused => PlaybackState::Playing,
            PlaybackState::Stopped => PlaybackState::Stopped,
        };
    }
}

/// Pausing twice returns to the state one started from.
pub proof fn law_toggle_pause_twice(state: PlaybackState)
    ensures
        toggled(toggled(state)) == state,
{
}

/// What pressing Enter on the selected line did.
#[derive(Debug, Clone, PartialEq, Eq)]
pub enum BrowserAction {
    NoAction,
    ToggledDirectory,
    PlayFile(String),
}

#[derive(Debug, PartialEq, Eq)]
struct BrowserState {
    root: String,
    tree: Vec<TreeNode>,
    entries: Vec<BrowserEntry>,
}

/// The library browser: its tree, the lines it shows, the selected line, and
/// the file that is playing.
#[derive(Debug, PartialEq, Eq)]
pub struct AppState {
    selected: usize,
    track_count: usize,
    browser: Option<BrowserState>,
    now_playing: Option<String>,
}

/// Whether any node of `nodes` or of their sub-trees has path `target`.
pub open spec fn contains_path(nodes: Seq<NodeModel>, target: Seq<char>) -> bool
    decreases nodes,
{
    if nodes.len() == 0 {
        false
    } else {
        ||| nodes[0].path == target
        ||| contains_path(nodes[0].children, target)
        ||| contains_path(nodes.subrange(1, nodes.len() as int), target)
    }
}

/// `nodes` after setting `expanded` on the first node in pre-order whose path is
/// `target`, when that node is a directory; all other nodes are unchanged.
pub open spec fn set_expanded(nodes: Seq<NodeModel>, target: Seq<char>, expanded: bool) -> Seq<
    NodeModel,
>
    decreases nodes,
{
    if nodes.len() == 0 {
        nodes
    } else {
        let node = nodes[0];
        let rest = nodes.subrange(1, nodes.len() as int);
        if node.path == target {
            seq![
                NodeModel {
                    expanded: if node.kind == BrowserEntryKind::Directory {
                        expanded
                    } else {
                        node.expanded
                    },
                    ..node
                },
            ] + rest
        } else if contains_path(node.children, target) {
            seq![NodeModel { children: set_expanded(node.children, target, expanded), ..node }]
                + rest
        } else {
            seq![node] + set_expanded(rest, target, expanded)
        }
    }
}

/// Number of audio-file lines in `entries`.
pub open spec fn audio_count(entries: Seq<EntryModel>) -> nat
    decreases entries.len(),
{
    if entries.len() == 0 {
        0
    } else {
        audio_count(entries.drop_last()) + if entries.last().kind == BrowserEntryKind::AudioFile {
            1nat
        } else {
            0nat
        }
    }
}

/// The 1-based position of the selected line among the audio files, when it is one.
pub open spec fn audio_position(entries: Seq<EntryModel>, selection: int) -> Option<nat> {
    if 0 <= selection < entries.len() && entries[selection].kind == BrowserEntryKind::AudioFile {
        Some(audio_count(entries.take(selection + 1)))
    } else {
        None
    }
}

pub proof fn lemma_audio_count_bounded(entries: Seq<EntryModel>)
    ensures
        audio_count(entries) <= entries.len(),
    decreases entries.len(),
{
    if entries.len() > 0 {
        lemma_audio_count_bounded(entries.drop_last());
    }
}

/// The selection after moving down over `total` items: one further, but not past the last.
pub open spec fn selection_after_down(selection: int, total: int) -> int {
    if total == 0 {
        selection
    } else if selection + 1 < total - 1 {
        selection + 1
    } else {
        total - 1
    }
}

/// The selection after moving up: one back, but not before the first.
pub open spec fn selection_after_up(selection: int) -> int {
    if selection > 0 {
        selection - 1
    } else {
        0
    }
}

/// Moving down stays within the items, moving up stays at or above the first,
/// and moving up undoes moving down from any item but the last.
pub proof fn law_selection_moves(selection: int, total: int)
    requires
        0 <= selection,
        selection == 0 || selection < total,
    ensures
        total > 0 ==> 0 <= selection_after_down(selection, total) < total,
        0 <= selection_after_up(selection) <= selection,
        selection + 1 < total ==> selection_after_up(selection_after_down(selection, total)) == selection,
{
}

/// Index of the first line with path `path`, or -1.
pub open spec fn index_of_path(entries: Seq<EntryModel>, path: Seq<char>) -> int
    decreases entries.len(),
{
    if entries.len() == 0 {
        -1
    } else if entries[0].path == path {
        0
    } else {
        let r = index_of_path(entries.subrange(1, entries.len() as int), path);
        if r < 0 {
            -1
        } else {
            r + 1
        }
    }
}

/// Index of the last line of `entries` at depth `depth`, or -1.
pub open spec fn last_index_at_depth(entries: Seq<EntryModel>, depth: int) -> int
    decreases entries.len(),
{
    if entries.len() == 0 {
        -1
    } else if entries.last().depth == depth {
        entries.len() - 1
    } else {
        last_index_at_depth(entries.drop_last(), depth)
    }
}

proof fn lemma_last_index_at_depth_bounds(entries: Seq<EntryModel>, depth: int)
    ensures
        -1 <= last_index_at_depth(entries, depth) < entries.len(),
        last_index_at_depth(entries, depth) >= 0 ==> entries[last_index_at_depth(entries, depth)].depth == depth,
    decreases entries.len(),
{
    if entries.len() > 0 && entries.last().depth != depth {
        lemma_last_index_at_depth_bounds(entries.drop_last(), depth);
    }
}

proof fn lemma_last_index_at_depth_last(entries: Seq<EntryModel>, depth: int)
    ensures
        last_index_at_depth(entries, depth) >= 0 ==> forall|k: int|
            last_index_at_depth(entries, depth) < k < entries.len() ==> #[trigger] entries[k].depth != depth,
        last_index_at_depth(entries, depth) < 0 ==> forall|k: int|
            0 <= k < entries.len() ==> #[trigger] entries[k].depth != depth,
    decreases entries.len(),
{
    if entries.len() > 0 && entries.last().depth != depth {
        let d = entries.drop_last();
        lemma_last_index_at_depth_last(d, depth);
        assert forall|k: int| 0 <= k < d.len() implies #[trigger] entries[k] == d[k] by {}
    }
}

/// Left climbs to the parent line: for a line `child` below the top level, the
/// nearest line above it that is one level shallower (none for a top-level line,
/// or when no such line is above).
pub proof fn law_parent_index(entries: Seq<EntryModel>, child: int)
    requires
        0 <= child < entries.len(),
    ensures
        entries[child].depth == 0 ==> parent_index(entries, child) == -1,
        parent_index(entries, child) >= 0 ==> {
            let p = parent_index(entries, child);
            &&& p < child
            &&& entries[p].depth == entries[child].depth - 1
            &&& forall|k: int| p < k < child ==> #[trigger] entries[k].depth != entries[child].depth - 1
        },
        entries[child].depth != 0 && parent_index(entries, child) < 0 ==> forall|k: int|
            0 <= k < child ==> #[trigger] entries[k].depth != entries[child].depth - 1,
{
    if entries[child].depth != 0 {
        let before = entries.take(child);
        let d = entries[child].depth - 1;
        lemma_last_index_at_depth_bounds(before, d);
        lemma_last_index_at_depth_last(before, d);
        assert forall|k: int| 0 <= k < child implies #[trigger] entries[k] == before[k] by {}
    }
}

/// Audio files are counted at every depth: the count adds up over joined lines,
/// and a single line counts one exactly when it is an audio file.
pub proof fn law_audio_count_counts_files(a: Seq<EntryModel>, b: Seq<EntryModel>, line: EntryModel)
    ensures
        audio_count(a + b) == audio_count(a) + audio_count(b),
        audio_count(seq![line]) == (if line.kind == BrowserEntryKind::AudioFile {
            1nat
        } else {
            0nat
        }),
    decreases b.len(),
{
    if b.len() == 0 {
        assert(a + b =~= a);
    } else {
        law_audio_count_counts_files(a, b.drop_last(), line);
        assert((a + b).drop_last() =~= a + b.drop_last());
        assert((a + b).last() == b.last());
    }
    let one = seq![line];
    assert(one.drop_last() =~= Seq::<EntryModel>::empty());
    assert(one.last() == line);
    assert(audio_count(one.drop_last()) == 0);
}

/// A selected audio file's position is one more than the number of audio files
/// above it, so at least one and at most the number of audio files.
pub proof fn law_audio_position(entries: Seq<EntryModel>, selection: int)
    requires
        0 <= selection < entries.len(),
        entries[selection].kind == BrowserEntryKind::AudioFile,
    ensures
        audio_position(entries, selection) == Some((audio_count(entries.take(selection)) + 1) as nat),
        audio_count(entries.take(selection)) + 1 <= audio_count(entries),
{
    law_audio_count_counts_files(entries.take(selection), seq![entries[selection]], entries[selection]);
    assert(entries.take(selection + 1) =~= entries.take(selection) + seq![entries[selection]]);
    law_audio_count_counts_files(
        entries.take(selection + 1),
        entries.skip(selection + 1),
        entries[selection],
    );
    assert(entries =~= entries.take(selection + 1) + entries.skip(selection + 1));
}

/// The line that `move_left` climbs to from line `child`: the nearest line above it
/// one level shallower, or -1 for a top-level line.
pub open spec fn parent_index(entries: Seq<EntryModel>, child: int) -> int {
    if entries[child].depth == 0 {
        -1
    } else {
        last_index_at_depth(entries.take(child), entries[child].depth - 1)
    }
}

/// The selection after the lines changed to `entries`: the first line with the
/// previously selected path if there is one, else the old index kept within bounds.
pub open spec fn reselected(entries: Seq<EntryModel>, old_path: Option<Seq<char>>, old_selected: int) -> int {
    match old_path {
        Some(p) if index_of_path(entries, p) >= 0 => index_of_path(entries, p),
        _ => if old_selected < entries.len() - 1 {
            old_selected
        } else if entries.len() == 0 {
            0
        } else {
            entries.len() - 1
        },
    }
}


proof fn lemma_contains_path_append(a: Seq<NodeModel>, b: Seq<NodeModel>, target: Seq<char>, expanded: bool)
    requires
        !contains_path(a, target),
    ensures
        contains_path(a + b, target) == contains_path(b, target),
        set_expanded(a + b, target, expanded) == a + set_expanded(b, target, expanded),
    decreases a.len(),
{
    if a.len() == 0 {
        assert(a + b =~= b);
    } else {
        let rest = a.subrange(1, a.len() as int);
        lemma_contains_path_append(rest, b, target, expanded);
        assert((a + b).subrange(1, (a + b).len() as int) =~= rest + b);
        assert((a + b)[0] == a[0]);
        assert(set_expanded(a + b, target, expanded) =~= a + set_expanded(b, target, expanded));
    }
}

proof fn lemma_set_expanded_absent(nodes: Seq<NodeModel>, target: Seq<char>, expanded: bool)
    requires
        !contains_path(nodes, target),
    ensures
        set_expanded(nodes, target, expanded) == nodes,
{
    lemma_contains_path_append(nodes, seq![], target, expanded);
    assert(nodes + Seq::<NodeModel>::empty() =~= nodes);
}

proof fn lemma_views_update(nodes: Seq<TreeNode>, i: int, x: TreeNode)
    requires
        0 <= i < nodes.len(),
    ensures
        views(nodes.update(i, x)) == views(nodes).update(i, node_view(x)),
{
    lemma_views(nodes);
    let target = views(nodes).update(i, node_view(x));
    assert forall|k: int| 0 <= k < nodes.len() implies #[trigger] node_view(nodes.update(i, x)[k])
        == target[k] by {}
    lemma_views_ext(nodes.update(i, x), target);
}

/// Sets `expanded` on the first node in pre-order whose path is `target`, if it is
/// a directory; says whether a node with that path was found.
fn set_tree_expanded(nodes: &mut Vec<TreeNode>, target: &String, expanded: bool) -> (found: bool)
    ensures
        found == contains_path(views(old(nodes)@), target@),
        views(final(nodes)@) == set_expanded(views(old(nodes)@), target@, expanded),
    decreases old(nodes)@,
{
    let ghost vs = views(old(nodes)@);
    proof {
        lemma_views(old(nodes)@);
    }
    let mut i: usize = 0;
    while i < nodes.len()
        invariant
            i <= nodes.len(),
            nodes@.len() == old(nodes)@.len(),
            vs == views(old(nodes)@),
            vs.len() == old(nodes)@.len(),
            forall|k: int| 0 <= k < vs.len() ==> #[trigger] vs[k] == node_view(old(nodes)@[k]),
            views(nodes@) == vs,
            forall|k: int| i <= k < nodes.len() ==> #[trigger] nodes@[k] == old(nodes)@[k],
            !contains_path(vs.take(i as int), target@),
        decreases nodes.len() - i,
    {
        let ghost before = nodes@;
        proof {
            lemma_contains_path_append(vs.take(i as int), vs.skip(i as int), target@, expanded);
            assert(vs.take(i as int) + vs.skip(i as int) =~= vs);
            let tail = vs.skip(i as int);
            assert(tail[0] == vs[i as int]);
            assert(tail.subrange(1, tail.len() as int) =~= vs.skip(i + 1));
        }
        if nodes[i].path == *target {
            if nodes[i].kind == BrowserEntryKind::Directory {
                let node = &mut nodes[i];
                node.expanded = expanded;
            }
            proof {
                lemma_views_update(before, i as int, nodes@[i as int]);
                assert(views(nodes@) =~= set_expanded(vs, target@, expanded));
            }
            return true;
        }
        let ghost old_node = nodes@[i as int];
        proof {
            assert(decreases_to!(old(nodes)@ => old(nodes)@[i as int]));
        }
        let node = &mut nodes[i];
        let found = set_tree_expanded(&mut node.children, target, expanded);
        proof {
            lemma_views_update(before, i as int, nodes@[i as int]);
        }
        if found {
            assert(views(nodes@) =~= set_expanded(vs, target@, expanded));
            return true;
        }
        proof {
            assert(vs[i as int].path == old(nodes)@[i as int].path@);
            assert(!contains_path(Seq::<NodeModel>::empty(), target@));
            assert(seq![vs[i as int]].subrange(1, 1) =~= Seq::<NodeModel>::empty());
            assert(!contains_path(seq![vs[i as int]], target@));
            lemma_set_expanded_absent(vs[i as int].children, target@, expanded);
            assert(node_view(nodes@[i as int]) == vs[i as int]);
            assert(views(nodes@) =~= vs);
            assert(vs.take(i + 1) =~= vs.take(i as int) + seq![vs[i as int]]);
            lemma_contains_path_append(vs.take(i as int), seq![vs[i as int]], target@, expanded);
            assert(seq![vs[i as int]].subrange(1, 1) =~= Seq::<NodeModel>::empty());
        }
        i += 1;
    }
    proof {
        assert(vs.take(vs.len() as int) =~= vs);
        lemma_set_expanded_absent(vs, target@, expanded);
    }
    false
}


/// The first node in pre-order whose path is `target`.
pub open spec fn node_with_path(nodes: Seq<NodeModel>, target: Seq<char>) -> Option<NodeModel>
    decreases nodes,
{
    if nodes.len() == 0 {
        None
    } else if nodes[0].path == target {
        Some(nodes[0])
    } else if contains_path(nodes[0].children, target) {
        node_with_path(nodes[0].children, target)
    } else {
        node_with_path(nodes.subrange(1, nodes.len() as int), target)
    }
}

proof fn lemma_split_first(nodes: Seq<NodeModel>, first: NodeModel)
    requires
        nodes.len() > 0,
    ensures
        (seq![first] + nodes.subrange(1, nodes.len() as int))[0] == first,
        (seq![first] + nodes.subrange(1, nodes.len() as int)).subrange(
            1,
            nodes.len() as int,
        ) == nodes.subrange(1, nodes.len() as int),
        (seq![first] + nodes.subrange(1, nodes.len() as int)).len() == nodes.len(),
{
    assert((seq![first] + nodes.subrange(1, nodes.len() as int)).subrange(1, nodes.len() as int)
        =~= nodes.subrange(1, nodes.len() as int));
}

/// Folding or unfolding changes no path: the same paths occur in the tree.
pub proof fn law_set_expanded_keeps_paths(nodes: Seq<NodeModel>, target: Seq<char>, expanded: bool, path: Seq<char>)
    ensures
        contains_path(set_expanded(nodes, target, expanded), path) == contains_path(nodes, path),
        set_expanded(nodes, target, expanded).len() == nodes.len(),
    decreases nodes,
{
    if nodes.len() > 0 {
        let node = nodes[0];
        let rest = nodes.subrange(1, nodes.len() as int);
        if node.path == target {
            let first = NodeModel {
                expanded: if node.kind == BrowserEntryKind::Directory {
                    expanded
                } else {
                    node.expanded
                },
                ..node
            };
            lemma_split_first(nodes, first);
        } else if contains_path(node.children, target) {
            law_set_expanded_keeps_paths(node.children, target, expanded, path);
            let first = NodeModel { children: set_expanded(node.children, target, expanded), ..node };
            lemma_split_first(nodes, first);
        } else {
            law_set_expanded_keeps_paths(rest, target, expanded, path);
            let r = seq![node] + set_expanded(rest, target, expanded);
            assert(r.subrange(1, r.len() as int) =~= set_expanded(rest, target, expanded));
        }
    }
}

/// Setting the same directory twice leaves the effect of the second call only.
pub proof fn law_set_expanded_last_wins(nodes: Seq<NodeModel>, target: Seq<char>, first: bool, second: bool)
    ensures
        set_expanded(set_expanded(nodes, target, first), target, second) == set_expanded(
            nodes,
            target,
            second,
        ),
    decreases nodes,
{
    if nodes.len() > 0 {
        let node = nodes[0];
        let rest = nodes.subrange(1, nodes.len() as int);
        let once = set_expanded(nodes, target, first);
        if node.path == target {
            let n1 = NodeModel {
                expanded: if node.kind == BrowserEntryKind::Directory {
                    first
                } else {
                    node.expanded
                },
                ..node
            };
            lemma_split_first(nodes, n1);
            let n2 = NodeModel {
                expanded: if node.kind == BrowserEntryKind::Directory {
                    second
                } else {
                    node.expanded
                },
                ..node
            };
            lemma_split_first(nodes, n2);
            assert(set_expanded(once, target, second) =~= set_expanded(nodes, target, second));
        } else if contains_path(node.children, target) {
            law_set_expanded_last_wins(node.children, target, first, second);
            law_set_expanded_keeps_paths(node.children, target, first, target);
            let n1 = NodeModel { children: set_expanded(node.children, target, first), ..node };
            lemma_split_first(nodes, n1);
            let n2 = NodeModel { children: set_expanded(node.children, target, second), ..node };
            lemma_split_first(nodes, n2);
            assert(set_expanded(once, target, second) =~= set_expanded(nodes, target, second));
        } else {
            law_set_expanded_last_wins(rest, target, first, second);
            let r = seq![node] + set_expanded(rest, target, first);
            assert(r.subrange(1, r.len() as int) =~= set_expanded(rest, target, first));
            assert(r[0] == node);
            assert(set_expanded(once, target, second) =~= set_expanded(nodes, target, second));
        }
    }
}

/// Setting a directory to the state it is in changes nothing.
pub proof fn law_set_expanded_unchanged(nodes: Seq<NodeModel>, target: Seq<char>, expanded: bool)
    requires
        node_with_path(nodes, target) matches Some(n) && (n.kind == BrowserEntryKind::Directory
            ==> n.expanded == expanded),
    ensures
        set_expanded(nodes, target, expanded) == nodes,
    decreases nodes,
{
    let node = nodes[0];
    let rest = nodes.subrange(1, nodes.len() as int);
    if node.path == target {
        assert(set_expanded(nodes, target, expanded) =~= nodes);
    } else if contains_path(node.children, target) {
        law_set_expanded_unchanged(node.children, target, expanded);
        assert(set_expanded(nodes, target, expanded) =~= nodes);
    } else {
        law_set_expanded_unchanged(rest, target, expanded);
        assert(set_expanded(nodes, target, expanded) =~= nodes);
    }
}

/// Pressing Enter twice on a directory restores the tree and the browser lines:
/// the second expansion step, setting the directory back to the state it had,
/// undoes the first.
pub proof fn law_toggle_directory_twice(s0: AppState, s1: AppState, s2: AppState, path: Seq<char>)
    requires
        s0.wf(),
        s0.has_browser(),
        node_with_path(s0.tree_models(), path) matches Some(n) && n.kind
            == BrowserEntryKind::Directory,
        AppState::expansion_step(s0, s1, path, !node_with_path(s0.tree_models(), path)->0.expanded),
        AppState::expansion_step(s1, s2, path, node_with_path(s0.tree_models(), path)->0.expanded),
    ensures
        s2.tree_models() == s0.tree_models(),
        s2.entry_models() == s0.entry_models(),
{
    let n = node_with_path(s0.tree_models(), path)->0;
    law_set_expanded_last_wins(s0.tree_models(), path, !n.expanded, n.expanded);
    law_set_expanded_unchanged(s0.tree_models(), path, n.expanded);
    s0.lemma_entries_of_tree();
    s2.lemma_entries_of_tree();
}

/// Moving up undoes moving down from any line but the last: the state is the
/// one started from.
pub proof fn law_move_up_undoes_move_down(s0: AppState, s1: AppState, s2: AppState)
    requires
        s0.wf(),
        s0.selection() + 1 < s0.item_total(),
        s1 == s0.with_selection(selection_after_down(s0.selection(), s0.item_total())),
        s2 == s1.with_selection(selection_after_up(s1.selection())),
    ensures
        s2 == s0,
{
    law_selection_moves(s0.selection(), s0.item_total());
    assert(s2 =~= s0);
}

pub(crate) proof fn lemma_index_of_path_found(entries: Seq<EntryModel>, path: Seq<char>)
    ensures
        index_of_path(entries, path) >= 0 ==> index_of_path(entries, path) < entries.len()
            && entries[index_of_path(entries, path)].path == path,
        index_of_path(entries, path) >= -1,
    decreases entries.len(),
{
    if entries.len() > 0 && entries[0].path != path {
        let rest = entries.subrange(1, entries.len() as int);
        lemma_index_of_path_found(rest, path);
    }
}

/// Folding or unfolding keeps the selected path selected whenever a line with
/// that path is still shown.
pub proof fn law_expansion_keeps_selected_path(
    old: AppState,
    new: AppState,
    path: Seq<char>,
    expanded: bool,
    selected: Seq<char>,
)
    requires
        AppState::expansion_step(old, new, path, expanded),
        old.selected_path() == Some(selected),
        index_of_path(new.entry_models(), selected) >= 0,
    ensures
        new.selected_path() == Some(selected),
{
    lemma_index_of_path_found(new.entry_models(), selected);
}

/// At start-up the top-level directories are unfolded and nothing below them is.
pub proof fn law_new_expands_first_level(listing: Seq<ListedEntry>)
    ensures
        forall|k: int|
            0 <= k < expand_top(tree_of(listing)).len() ==> {
                let node = #[trigger] expand_top(tree_of(listing))[k];
                &&& node.expanded == (node.kind == BrowserEntryKind::Directory)
                &&& forall|j: int| 0 <= j < node.children.len() ==> !(#[trigger] node.children[j]).expanded
            },
{
    law_tree_of_listing(listing);
    assert forall|k: int| 0 <= k < expand_top(tree_of(listing)).len() implies {
        let node = #[trigger] expand_top(tree_of(listing))[k];
        &&& node.expanded == (node.kind == BrowserEntryKind::Directory)
        &&& forall|j: int| 0 <= j < node.children.len() ==> !(#[trigger] node.children[j]).expanded
    } by {
        assert(shown_node(tree_of(listing)[k]));
    }
}

pub(crate) proof fn lemma_index_of_path(entries: Seq<EntryModel>, path: Seq<char>, j: int)
    requires
        0 <= j <= entries.len(),
        forall|k: int| 0 <= k < j ==> entries[k].path != path,
    ensures
        j < entries.len() && entries[j].path == path ==> index_of_path(entries, path) == j,
        j == entries.len() ==> index_of_path(entries, path) == -1,
    decreases j,
{
    if j > 0 {
        let rest = entries.subrange(1, entries.len() as int);
        lemma_index_of_path(rest, path, j - 1);
    } else if entries.len() > 0 {
    }
}

/// What a browser state shows: the selected index, whether it holds a library
/// tree, the library root and tree (empty without one), the lines, the number of
/// items the selection moves over, and the path of the playing file.
pub struct AppModel {
    pub selection: int,
    pub has_browser: bool,
    pub root: Seq<char>,
    pub tree: Seq<NodeModel>,
    pub lines: Seq<EntryModel>,
    pub item_total: int,
    pub playing: Option<Seq<char>>,
}

impl View for AppState {
    type V = AppModel;

    open spec fn view(&self) -> AppModel {
        AppModel {
            selection: self.selection(),
            has_browser: self.has_browser(),
            root: self.root_path(),
            tree: self.tree_models(),
            lines: self.entry_models(),
            item_total: self.item_total(),
            playing: self.playing_path(),
        }
    }
}

impl AppState {
    /// Index of the selected line.
    pub closed spec fn selection(&self) -> int {
        self.selected as int
    }

    /// Whether the state holds a library tree.
    pub closed spec fn has_browser(&self) -> bool {
        self.browser is Some
    }

    /// The directory that the library tree was read from.
    pub closed spec fn root_path(&self) -> Seq<char> {
        match self.browser {
            Some(b) => b.root@,
            None => seq![],
        }
    }

    /// The library tree, empty without one.
    pub closed spec fn tree_models(&self) -> Seq<NodeModel> {
        match self.browser {
            Some(b) => views(b.tree@),
            None => seq![],
        }
    }

    /// The browser lines, empty without a library tree.
    pub closed spec fn entry_seq(&self) -> Seq<BrowserEntry> {
        match self.browser {
            Some(b) => b.entries@,
            None => seq![],
        }
    }

    /// The models of the browser lines.
    pub open spec fn entry_models(&self) -> Seq<EntryModel> {
        entry_views(self.entry_seq())
    }

    /// The number of items that the selection moves over: the browser lines, or
    /// the track count given without a library tree.
    pub closed spec fn item_total(&self) -> int {
        match self.browser {
            Some(b) => b.entries@.len() as int,
            None => self.track_count as int,
        }
    }

    /// The path of the file that is playing.
    pub closed spec fn playing_path(&self) -> Option<Seq<char>> {
        match self.now_playing {
            Some(p) => Some(p@),
            None => None,
        }
    }

    /// The path of the selected line, if a line is selected.
    pub open spec fn selected_path(&self) -> Option<Seq<char>> {
        if 0 <= self.selection() < self.entry_models().len() {
            Some(self.entry_models()[self.selection()].path)
        } else {
            None
        }
    }

    /// The lines are those of the tree, the track count is their number, and the
    /// selection is a valid index (or 0 when there is nothing to select).
    pub closed spec fn wf(&self) -> bool {
        &&& match self.browser {
            Some(b) => {
                &&& entry_views(b.entries@) == flattened(views(b.tree@), 0)
                &&& self.track_count == b.entries@.len()
            },
            None => true,
        }
        &&& (self.selected == 0 || self.selected < self.item_total())
    }

    /// In a well-formed state the selection is 0 or a valid index.
    pub proof fn lemma_selection_bounded(&self)
        requires
            self.wf(),
        ensures
            self.selection() == 0 || self.selection() < self.item_total(),
            self.item_total() <= usize::MAX,
            self.has_browser() ==> self.item_total() == self.entry_models().len(),
            !self.has_browser() ==> self.entry_models().len() == 0,
    {
    }

    /// The browser lines of a state with a tree are the flattened tree.
    pub proof fn lemma_entries_of_tree(&self)
        requires
            self.wf(),
            self.has_browser(),
        ensures
            self.entry_models() == flattened(self.tree_models(), 0),
    {
    }

    /// Whether Left changes anything: an unfolded directory is selected, or the
    /// selected line has a parent line.
    pub open spec fn left_moves(self) -> bool {
        match self.selected_path() {
            None => false,
            Some(_) => {
                let entry = self.entry_models()[self.selection()];
                (entry.kind == BrowserEntryKind::Directory && entry.expanded) || parent_index(
                    self.entry_models(),
                    self.selection(),
                ) >= 0
            },
        }
    }

    /// `new` is `old` after Left: an unfolded selected directory is folded, else
    /// the selection climbs to the parent line, else nothing changes.
    pub open spec fn left_step(old: AppState, new: AppState) -> bool {
        match old.selected_path() {
            None => new == old,
            Some(p) => {
                let entry = old.entry_models()[old.selection()];
                let parent = parent_index(old.entry_models(), old.selection());
                if entry.kind == BrowserEntryKind::Directory && entry.expanded {
                    AppState::expansion_step(old, new, p, false)
                } else if parent < 0 {
                    new == old
                } else {
                    &&& new == old.with_selection(parent)
                    &&& new@ == (AppModel { selection: parent, ..old@ })
                    &&& new.entry_seq() == old.entry_seq()
                }
            },
        }
    }

    /// Whether Right changes anything: a folded directory is selected.
    pub open spec fn right_moves(self) -> bool {
        match self.selected_path() {
            None => false,
            Some(_) => {
                let entry = self.entry_models()[self.selection()];
                entry.kind == BrowserEntryKind::Directory && !entry.expanded
            },
        }
    }

    /// `new` is `old` after Right: a folded selected directory is unfolded, else
    /// nothing changes.
    pub open spec fn right_step(old: AppState, new: AppState) -> bool {
        if old.right_moves() {
            AppState::expansion_step(old, new, old.selected_path().unwrap(), true)
        } else {
            new == old
        }
    }

    /// `new` and `action` are the outcome of Enter on `old`: with nothing selected
    /// nothing happens; a selected directory is folded or unfolded; a selected
    /// audio file is to be played and nothing changes.
    pub open spec fn activate_step(old: AppState, new: AppState, action: BrowserAction) -> bool {
        match old.selected_path() {
            None => action == BrowserAction::NoAction && new == old,
            Some(p) => {
                let entry = old.entry_models()[old.selection()];
                if entry.kind == BrowserEntryKind::Directory {
                    &&& action == BrowserAction::ToggledDirectory
                    &&& AppState::expansion_step(old, new, p, !entry.expanded)
                } else {
                    &&& action matches BrowserAction::PlayFile(file) && file@ == p
                    &&& new == old
                }
            },
        }
    }

    /// `self` with only the selection changed.
    pub closed spec fn with_selection(self, selected: int) -> AppState {
        AppState { selected: selected as usize, ..self }
    }

    /// `self` with only the playing file changed.
    pub closed spec fn with_playing(self, path: Option<String>) -> AppState {
        AppState { now_playing: path, ..self }
    }

    /// `new` is `old` after setting `expanded` on the directory at `path`: the tree
    /// changed as `set_expanded` says, the lines are the flattened new tree, and
    /// the selection stays on the previously selected path where that line still
    /// shows; the root and the playing file are kept.
    pub open spec fn expansion_step(old: AppState, new: AppState, path: Seq<char>, expanded: bool) -> bool {
        &&& new.wf()
        &&& new@.has_browser
        &&& new@.root == old@.root
        &&& new@.tree == set_expanded(old@.tree, path, expanded)
        &&& new@.lines == flattened(new@.tree, 0)
        &&& new@.item_total == new@.lines.len()
        &&& new@.selection == reselected(new@.lines, old.selected_path(), old@.selection)
        &&& new@.playing == old@.playing
    }

    /// A browser over `tree` as it is, with the first line selected.
    pub fn with_tree(root: String, tree: Vec<TreeNode>) -> (state: Self)
        ensures
            state.wf(),
            state.has_browser(),
            state.root_path() == root@,
            state.tree_models() == views(tree@),
            state.entry_models() == flattened(views(tree@), 0),
            state.selection() == 0,
            state.playing_path() is None,
    {
        let entries = flatten_tree(&tree);
        let count = entries.len();
        AppState {
            selected: 0,
            track_count: count,
            browser: Some(BrowserState { root, tree, entries }),
            now_playing: None,
        }
    }

    /// The browser over the library listed in `listing` (read from `root`), with
    /// the top-level directories expanded and the first line selected.
    pub fn new(root: String, listing: &Vec<ListedEntry>) -> (state: Self)
        ensures
            state.wf(),
            state.has_browser(),
            state.root_path() == root@,
            state.tree_models() == expand_top(tree_of(listing@)),
            state.entry_models() == flattened(expand_top(tree_of(listing@)), 0),
            state.selection() == 0,
            state.playing_path() is None,
    {
        let mut tree = build_tree(listing);
        expand_first_level(&mut tree);
        Self::with_tree(root, tree)
    }

    /// A state without a library tree, over `track_count` items.
    pub fn with_track_count(track_count: usize) -> (state: Self)
        ensures
            state.wf(),
            !state.has_browser(),
            state.item_total() == track_count,
            state.entry_models() == Seq::<EntryModel>::empty(),
            state.selection() == 0,
            state.playing_path() is None,
    {
        AppState { selected: 0, track_count, browser: None, now_playing: None }
    }

    pub fn selected_index(&self) -> (r: usize)
        ensures
            r == self.selection(),
    {
        self.selected
    }

    /// The browser lines (none without a library tree).
    pub fn entries(&self) -> (r: &[BrowserEntry])
        ensures
            r@ == self.entry_seq(),
    {
        match &self.browser {
            Some(browser) => browser.entries.as_slice(),
            None => &[],
        }
    }

    /// The selected line, if the selection points at one.
    pub fn selected_entry(&self) -> (r: Option<&BrowserEntry>)
        ensures
            match r {
                Some(e) => 0 <= self.selection() < self.entry_seq().len() && *e
                    == self.entry_seq()[self.selection()],
                None => self.selection() >= self.entry_seq().len(),
            },
    {
        let entries = self.entries();
        if self.selected < entries.len() {
            Some(&entries[self.selected])
        } else {
            None
        }
    }

    /// How many lines are audio files.
    pub fn audio_file_count(&self) -> (r: usize)
        ensures
            r == audio_count(self.entry_models()),
    {
        let entries = self.entries();
        let ghost models = entry_views(entries@);
        let mut count: usize = 0;
        let mut i: usize = 0;
        while i < entries.len()
            invariant
                i <= entries.len(),
                models == entry_views(entries@),
                count == audio_count(models.take(i as int)),
                count <= i,
            decreases entries.len() - i,
        {
            assert(models.take(i + 1).drop_last() =~= models.take(i as int));
            if entries[i].kind == BrowserEntryKind::AudioFile {
                count += 1;
            }
            i += 1;
        }
        assert(models.take(entries.len() as int) =~= models);
        count
    }

    /// For a selected audio file, its 1-based position among the audio files.
    pub fn selected_audio_position(&self) -> (r: Option<usize>)
        ensures
            match r {
                Some(p) => audio_position(self.entry_models(), self.selection()) == Some(p as nat),
                None => audio_position(self.entry_models(), self.selection()) is None,
            },
    {
        let entries = self.entries();
        let ghost models = entry_views(entries@);
        if self.selected >= entries.len() || entries[self.selected].kind
            != BrowserEntryKind::AudioFile {
            return None;
        }
        let end = self.selected + 1;
        let mut count: usize = 0;
        let mut i: usize = 0;
        while i < end
            invariant
                end <= entries.len(),
                i <= end,
                models == entry_views(entries@),
                count == audio_count(models.take(i as int)),
                count <= i,
            decreases end - i,
        {
            assert(models.take(i + 1).drop_last() =~= models.take(i as int));
            if entries[i].kind == BrowserEntryKind::AudioFile {
                count += 1;
            }
            i += 1;
        }
        Some(count)
    }

    /// The path of the file that is playing.
    pub fn now_playing_path(&self) -> (r: Option<&str>)
        ensures
            match r {
                Some(p) => self.playing_path() == Some(p@),
                None => self.playing_path() is None,
            },
    {
        match &self.now_playing {
            Some(p) => Some(p.as_str()),
            None => None,
        }
    }

    pub fn set_now_playing(&mut self, path: Option<String>)
        requires
            old(self).wf(),
        ensures
            final(self).wf(),
            *final(self) == old(self).with_playing(path),
            final(self)@ == (AppModel {
                playing: match path {
                    Some(p) => Some(p@),
                    None => None::<Seq<char>>,
                },
                ..old(self)@
            }),
            final(self).entry_seq() == old(self).entry_seq(),
    {
        self.now_playing = path;
    }

    /// Number of items the selection moves over.
    fn item_count(&self) -> (r: usize)
        ensures
            r == self.item_total(),
    {
        match &self.browser {
            Some(browser) => browser.entries.len(),
            None => self.track_count,
        }
    }

    /// Moves the selection one line down, stopping at the last line.
    pub fn move_down(&mut self)
        requires
            old(self).wf(),
        ensures
            final(self).wf(),
            *final(self) == old(self).with_selection(
                selection_after_down(old(self).selection(), old(self).item_total()),
            ),
            final(self)@ == (AppModel {
                selection: selection_after_down(old(self)@.selection, old(self)@.item_total),
                ..old(self)@
            }),
            final(self).entry_seq() == old(self).entry_seq(),
    {
        let item_count = self.item_count();
        if item_count == 0 {
            assert(*self == self.with_selection(self.selection()));
            return;
        }
        let next = self.selected + 1;
        let last = item_count - 1;
        self.selected = if next < last {
            next
        } else {
            last
        };
    }

    /// Moves the selection one line up, stopping at the first line.
    pub fn move_up(&mut self)
        requires
            old(self).wf(),
        ensures
            final(self).wf(),
            *final(self) == old(self).with_selection(selection_after_up(old(self).selection())),
            final(self)@ == (AppModel { selection: selection_after_up(old(self)@.selection), ..old(self)@ }),
            final(self).entry_seq() == old(self).entry_seq(),
    {
        self.selected = if self.selected > 0 {
            self.selected - 1
        } else {
            0
        };
    }

    /// Sets `expanded` on the directory at `path`, rebuilds the lines, and keeps
    /// the selection on the previously selected path when it still shows.
    fn set_directory_expanded(&mut self, path: &String, expanded: bool)
        requires
            old(self).wf(),
            old(self).has_browser(),
        ensures
            AppState::expansion_step(*old(self), *final(self), path@, expanded),
    {
        let selected_path: Option<String> = match self.selected_entry() {
            Some(entry) => Some(entry.path.clone()),
            None => None,
        };
        let ghost old_selected_path = self.selected_path();
        assert(selected_path matches Some(p) ==> Some(p@) == old_selected_path);
        assert(selected_path is None ==> old_selected_path is None);
        let mut browser = self.browser.take().unwrap();
        set_tree_expanded(&mut browser.tree, path, expanded);
        browser.entries = flatten_tree(&browser.tree);
        self.track_count = browser.entries.len();
        self.browser = Some(browser);
        assert(self.root_path() == old(self).root_path());
        assert(self.tree_models() == set_expanded(old(self).tree_models(), path@, expanded));
        let ghost models = self.entry_models();
        if let Some(selected_path) = selected_path {
            let entries = self.entries();
            let ghost mid = *self;
            assert(mid.root_path() == old(self).root_path());
            assert(mid.tree_models() == set_expanded(old(self).tree_models(), path@, expanded));
            let mut j: usize = 0;
            while j < entries.len()
                invariant
                    *self == mid,
                    mid.browser is Some,
                    mid.track_count == entries.len(),
                    entry_views(mid.entry_seq()) == flattened(mid.tree_models(), 0),
                    mid.root_path() == old(self).root_path(),
                    mid.tree_models() == set_expanded(old(self).tree_models(), path@, expanded),
                    mid.now_playing == old(self).now_playing,
                    old_selected_path == old(self).selected_path(),
                    old_selected_path == Some(selected_path@),
                    j <= entries.len(),
                    entries@ == self.entry_seq(),
                    models == entry_views(entries@),
                    forall|k: int| 0 <= k < j ==> models[k].path != selected_path@,
                decreases entries.len() - j,
            {
                assert(models[j as int].path == entries@[j as int].path@);
                if entries[j].path == selected_path {
                    proof {
                        lemma_index_of_path(models, selected_path@, j as int);
                    }
                    self.selected = j;
                    assert(self.wf());
                    assert(self.root_path() == old(self).root_path());
                    assert(self.tree_models() == set_expanded(old(self).tree_models(), path@, expanded));
                    assert(self.selection() == reselected(self.entry_models(), old(self).selected_path(), old(self).selection()));
                    return;
                }
                j += 1;
            }
            proof {
                lemma_index_of_path(models, selected_path@, j as int);
            }
        }
        let count = self.item_count();
        let last = if count > 0 {
            count - 1
        } else {
            0
        };
        if self.selected > last {
            self.selected = last;
        }
    }

    /// Acts on the selected line: a directory is folded or unfolded, an audio
    /// file is to be played, and with nothing selected nothing happens.
    pub fn activate_selected(&mut self) -> (action: BrowserAction)
        requires
            old(self).wf(),
        ensures
            final(self).wf(),
            AppState::activate_step(*old(self), *final(self), action),
    {
        let (kind, expanded, path) = match self.selected_entry() {
            Some(entry) => (entry.kind, entry.expanded, entry.path.clone()),
            None => {
                return BrowserAction::NoAction;
            },
        };
        match kind {
            BrowserEntryKind::Directory => {
                self.set_directory_expanded(&path, !expanded);
                BrowserAction::ToggledDirectory
            },
            BrowserEntryKind::AudioFile => BrowserAction::PlayFile(path),
        }
    }

    /// The nearest line above line `child` that is one level shallower.
    fn find_parent_index(&self, child_index: usize) -> (r: Option<usize>)
        ensures
            r == (if child_index < self.entry_models().len() && parent_index(
                self.entry_models(),
                child_index as int,
            ) >= 0 {
                Some(parent_index(self.entry_models(), child_index as int) as usize)
            } else {
                None
            }),
    {
        let entries = self.entries();
        let ghost models = entry_views(entries@);
        if child_index >= entries.len() {
            return None;
        }
        let depth = entries[child_index].depth;
        if depth == 0 {
            return None;
        }
        let wanted = depth - 1;
        assert(models[child_index as int].depth == depth);
        assert(parent_index(models, child_index as int) == last_index_at_depth(
            models.take(child_index as int),
            wanted as int,
        ));
        let mut i = child_index;
        while i > 0
            invariant
                i <= child_index < entries.len(),
                models == entry_views(entries@),
                entries@ == self.entry_seq(),
                parent_index(models, child_index as int) == last_index_at_depth(
                    models.take(child_index as int),
                    wanted as int,
                ),
                last_index_at_depth(models.take(child_index as int), wanted as int)
                    == last_index_at_depth(models.take(i as int), wanted as int),
            decreases i,
        {
            assert(models.take(i as int).drop_last() =~= models.take(i - 1));
            assert(models[i - 1].depth == entries@[i - 1].depth);
            assert(models.take(i as int).last() == models[i - 1]);
            if entries[i - 1].depth == wanted {
                assert(last_index_at_depth(models.take(i as int), wanted as int) == i - 1);
                assert(parent_index(self.entry_models(), child_index as int) == i - 1);
                return Some(i - 1);
            }
            i -= 1;
        }
        None
    }

    /// Left: folds an unfolded selected directory, else climbs to the parent line.
    /// Says whether anything changed.
    pub fn move_left(&mut self) -> (moved: bool)
        requires
            old(self).wf(),
        ensures
            final(self).wf(),
            moved == old(self).left_moves(),
            AppState::left_step(*old(self), *final(self)),
    {
        let (kind, expanded, path) = match self.selected_entry() {
            Some(entry) => (entry.kind, entry.expanded, entry.path.clone()),
            None => {
                return false;
            },
        };
        if kind == BrowserEntryKind::Directory && expanded {
            self.set_directory_expanded(&path, false);
            return true;
        }
        match self.find_parent_index(self.selected) {
            Some(parent) => {
                proof {
                    let models = self.entry_models();
                    let c = self.selection();
                    let d = models[c].depth - 1;
                    lemma_last_index_at_depth_bounds(models.take(c), d);
                }
                self.selected = parent;
                true
            },
            None => false,
        }
    }

    /// Right: unfolds a folded selected directory. Says whether anything changed.
    pub fn move_right(&mut self) -> (moved: bool)
        requires
            old(self).wf(),
        ensures
            final(self).wf(),
            moved == old(self).right_moves(),
            AppState::right_step(*old(self), *final(self)),
    {
        let (kind, expanded, path) = match self.selected_entry() {
            Some(entry) => (entry.kind, entry.expanded, entry.path.clone()),
            None => {
                return false;
            },
        };
        if kind == BrowserEntryKind::Directory && !expanded {
            self.set_directory_expanded(&path, true);
            return true;
        }
        false
    }
}

} // verus!
