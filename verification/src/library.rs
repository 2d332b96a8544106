use vstd::prelude::*;
use crate::audio::{is_supported_ext, supported_extension};
use crate::paths::{
    extension, file_name, file_stem, last_index, lemma_last_index_bounds, path_extension,
    path_file_stem,
};
use crate::sorting::{
    insert_sorted_by, insertion_sorted, is_sorted_by, lemma_insert_split, lemma_insertion_sorted,
    total_preorder,
};
use crate::text::{
    opt_view, string_views, lemma_string_views_push,
    chars_le, chars_le_exec, chars_of, lemma_chars_le_total, lemma_chars_le_transitive,
    lemma_chars_le_antisymmetric, law_chars_le_prefix,
};

verus! {

/// What a line of the library browser stands for.
#[derive(Debug, Clone, Copy, PartialEq, Eq, Structural)]
pub enum BrowserEntryKind {
    Directory,
    AudioFile,
}

/// One visible line of the library browser.
#[derive(Debug, Clone, PartialEq, Eq)]
pub struct BrowserEntry {
    pub name: String,
    pub path: String,
    pub kind: BrowserEntryKind,
    pub depth: usize,
    pub expanded: bool,
}

/// A directory or a playable file of the library, with its sub-tree.
#[derive(Debug, PartialEq, Eq)]
pub struct TreeNode {
    pub name: String,
    pub path: String,
    pub kind: BrowserEntryKind,
    pub expanded: bool,
    pub children: Vec<TreeNode>,
}

/// A browser line with its strings taken as character sequences.
pub struct EntryModel {
    pub name: Seq<char>,
    pub path: Seq<char>,
    pub kind: BrowserEntryKind,
    pub depth: int,
    pub expanded: bool,
}

/// The model of a browser line.
pub open spec fn entry_view(entry: BrowserEntry) -> EntryModel {
    EntryModel {
        name: entry.name@,
        path: entry.path@,
        kind: entry.kind,
        depth: entry.depth as int,
        expanded: entry.expanded,
    }
}

/// The models of a sequence of browser lines.
pub open spec fn entry_views(entries: Seq<BrowserEntry>) -> Seq<EntryModel> {
    entries.map_values(|e: BrowserEntry| entry_view(e))
}

/// The line that `node` shows as, at indentation level `depth`.
pub open spec fn entry_of(node: NodeModel, depth: int) -> EntryModel {
    EntryModel {
        name: node.name,
        path: node.path,
        kind: node.kind,
        depth: depth,
        expanded: node.expanded,
    }
}

/// Whether the children of `node` are listed below it.
pub open spec fn shows_children(node: NodeModel) -> bool {
    node.kind == BrowserEntryKind::Directory && node.expanded
}

/// The browser lines of `nodes` in pre-order, descending only into expanded directories.
pub open spec fn flattened(nodes: Seq<NodeModel>, depth: int) -> Seq<EntryModel>
    decreases nodes,
{
    if nodes.len() == 0 {
        seq![]
    } else {
        let node = nodes[0];
        seq![entry_of(node, depth)] + (if shows_children(node) {
            flattened(node.children, depth + 1)
        } else {
            seq![]
        }) + flattened(nodes.subrange(1, nodes.len() as int), depth)
    }
}

proof fn lemma_flattened_append(a: Seq<NodeModel>, b: Seq<NodeModel>, depth: int)
    ensures
        flattened(a + b, depth) == flattened(a, depth) + flattened(b, depth),
    decreases a.len(),
{
    if a.len() == 0 {
        assert(a + b =~= b);
        assert(flattened(a, depth) =~= seq![]);
        assert(flattened(a + b, depth) =~= flattened(a, depth) + flattened(b, depth));
    } else {
        let rest = a.subrange(1, a.len() as int);
        lemma_flattened_append(rest, b, depth);
        assert((a + b).subrange(1, (a + b).len() as int) =~= rest + b);
        assert((a + b)[0] == a[0]);
        let node = a[0];
        let kids = if shows_children(node) {
            flattened(node.children, depth + 1)
        } else {
            seq![]
        };
        assert(flattened(a + b, depth) == seq![entry_of(node, depth)] + kids + flattened(rest + b, depth));
        assert(flattened(a, depth) == seq![entry_of(node, depth)] + kids + flattened(rest, depth));
        assert(flattened(a + b, depth) =~= flattened(a, depth) + flattened(b, depth));
    }
}

proof fn lemma_flattened_take_next(nodes: Seq<NodeModel>, i: int, depth: int)
    requires
        0 <= i < nodes.len(),
    ensures
        flattened(nodes.take(i + 1), depth) == flattened(nodes.take(i), depth) + seq![
            entry_of(nodes[i], depth),
        ] + (if shows_children(nodes[i]) {
            flattened(nodes[i].children, depth + 1)
        } else {
            seq![]
        }),
{
    assert(nodes.take(i + 1) =~= nodes.take(i) + seq![nodes[i]]);
    lemma_flattened_append(nodes.take(i), seq![nodes[i]], depth);
    let single = seq![nodes[i]];
    assert(single.subrange(1, 1) =~= Seq::<NodeModel>::empty());
    assert(flattened(single.subrange(1, 1), depth) =~= seq![]);
    let kids = if shows_children(nodes[i]) {
        flattened(nodes[i].children, depth + 1)
    } else {
        seq![]
    };
    assert(flattened(single, depth) =~= seq![entry_of(nodes[i], depth)] + kids);
    assert(flattened(nodes.take(i + 1), depth) =~= flattened(nodes.take(i), depth) + seq![
        entry_of(nodes[i], depth),
    ] + kids);
}

fn flatten_nodes(nodes: &Vec<TreeNode>, depth: usize, output: &mut Vec<BrowserEntry>)
    requires
        old(output).len() >= depth,
    ensures
        entry_views(final(output)@) == entry_views(old(output)@) + flattened(
            views(nodes@),
            depth as int,
        ),
    decreases nodes@,
{
    proof {
        lemma_views(nodes@);
    }
    let mut i: usize = 0;
    while i < nodes.len()
        invariant
            i <= nodes.len(),
            output.len() >= depth,
            views(nodes@).len() == nodes@.len(),
            forall|k: int| 0 <= k < nodes.len() ==> #[trigger] views(nodes@)[k] == node_view(nodes@[k]),
            entry_views(output@) == entry_views(old(output)@) + flattened(
                views(nodes@).take(i as int),
                depth as int,
            ),
        decreases nodes.len() - i,
    {
        let node = &nodes[i];
        let ghost before = output@;
        let ghost vs = views(nodes@);
        output.push(
            BrowserEntry {
                name: node.name.clone(),
                path: node.path.clone(),
                kind: node.kind,
                depth: depth,
                expanded: node.expanded,
            },
        );
        assert(entry_views(output@) =~= entry_views(before) + seq![entry_of(vs[i as int], depth as int)]);
        let ghost mid = output@;
        assert(depth < output.len());
        if node.kind == BrowserEntryKind::Directory && node.expanded {
            proof {
                assert(decreases_to!(nodes@ => nodes@[i as int]));
            }
            flatten_nodes(&node.children, depth + 1, output);
        } else {
            assert(entry_views(output@) =~= entry_views(mid) + seq![]);
        }
        proof {
            lemma_flattened_take_next(vs, i as int, depth as int);
            assert(entry_views(output@) =~= entry_views(old(output)@) + flattened(
                vs.take(i + 1),
                depth as int,
            ));
        }
        i += 1;
    }
    assert(views(nodes@).take(nodes.len() as int) =~= views(nodes@));
}

/// The browser lines of a tree: every node in pre-order, at its nesting depth,
/// below a directory only while that directory is expanded.
pub fn flatten_tree(nodes: &Vec<TreeNode>) -> (entries: Vec<BrowserEntry>)
    ensures
        entry_views(entries@) == flattened(views(nodes@), 0),
{
    let mut entries = Vec::new();
    proof {
        assert(entry_views(entries@) =~= seq![]);
    }
    flatten_nodes(nodes, 0, &mut entries);
    assert(entry_views(entries@) =~= flattened(views(nodes@), 0));
    entries
}

/// `nodes` with every top-level directory expanded.
pub open spec fn expand_top(nodes: Seq<NodeModel>) -> Seq<NodeModel> {
    Seq::new(
        nodes.len(),
        |i: int|
            NodeModel {
                expanded: nodes[i].expanded || nodes[i].kind == BrowserEntryKind::Directory,
                ..nodes[i]
            },
    )
}

/// Expands every directory at the top level, and nothing below it.
pub fn expand_first_level(nodes: &mut Vec<TreeNode>)
    ensures
        views(final(nodes)@) == expand_top(views(old(nodes)@)),
{
    proof {
        lemma_views(nodes@);
    }
    let ghost target = expand_top(views(old(nodes)@));
    let mut i: usize = 0;
    while i < nodes.len()
        invariant
            i <= nodes.len(),
            nodes@.len() == old(nodes)@.len(),
            target == expand_top(views(old(nodes)@)),
            views(old(nodes)@).len() == old(nodes)@.len(),
            forall|k: int|
                0 <= k < old(nodes)@.len() ==> #[trigger] views(old(nodes)@)[k] == node_view(
                    old(nodes)@[k],
                ),
            forall|j: int| 0 <= j < i ==> #[trigger] node_view(nodes@[j]) == target[j],
            forall|j: int| i <= j < nodes@.len() ==> #[trigger] nodes@[j] == old(nodes)@[j],
        decreases nodes.len() - i,
    {
        if nodes[i].kind == BrowserEntryKind::Directory {
            let node = &mut nodes[i];
            node.expanded = true;
        }
        assert(node_view(nodes@[i as int]) == target[i as int]);
        i += 1;
    }
    proof {
        lemma_views_ext(nodes@, target);
    }
}

/// One item of a directory as the file system lists it: its name, its full
/// path, whether it is a directory, and (for a directory that was read) the
/// listing of its own items.
#[derive(Debug)]
pub struct ListedEntry {
    pub name: String,
    pub path: String,
    pub is_dir: bool,
    pub children: Vec<ListedEntry>,
}

/// A tree node with its strings taken as character sequences.
pub struct NodeModel {
    pub name: Seq<char>,
    pub path: Seq<char>,
    pub kind: BrowserEntryKind,
    pub expanded: bool,
    pub children: Seq<NodeModel>,
}

/// The model of a tree node.
pub open spec fn node_view(node: TreeNode) -> NodeModel
    decreases node,
{
    NodeModel {
        name: node.name@,
        path: node.path@,
        kind: node.kind,
        expanded: node.expanded,
        children: views(node.children@),
    }
}

/// The models of a sequence of tree nodes.
pub open spec fn views(nodes: Seq<TreeNode>) -> Seq<NodeModel>
    decreases nodes,
{
    if nodes.len() == 0 {
        seq![]
    } else {
        seq![node_view(nodes[0])] + views(nodes.subrange(1, nodes.len() as int))
    }
}

pub proof fn lemma_views(nodes: Seq<TreeNode>)
    ensures
        views(nodes).len() == nodes.len(),
        forall|k: int| 0 <= k < nodes.len() ==> #[trigger] views(nodes)[k] == node_view(nodes[k]),
    decreases nodes.len(),
{
    if nodes.len() > 0 {
        let rest = nodes.subrange(1, nodes.len() as int);
        lemma_views(rest);
        assert forall|k: int| 0 <= k < nodes.len() implies #[trigger] views(nodes)[k] == node_view(
            nodes[k],
        ) by {
            if k > 0 {
                assert(views(nodes)[k] == views(rest)[k - 1]);
                assert(rest[k - 1] == nodes[k]);
            }
        }
    }
}

pub proof fn lemma_views_ext(a: Seq<TreeNode>, b: Seq<NodeModel>)
    requires
        a.len() == b.len(),
        forall|k: int| 0 <= k < a.len() ==> #[trigger] node_view(a[k]) == b[k],
    ensures
        views(a) == b,
{
    lemma_views(a);
    assert(views(a) =~= b);
}

/// Whether a file or directory name marks it as hidden.
pub open spec fn is_hidden(name: Seq<char>) -> bool {
    name.len() > 0 && name[0] == '.'
}

/// Whether a path names a file of a supported format (extension compared exactly).
pub open spec fn is_supported_audio(path: Seq<char>) -> bool {
    match extension(path) {
        Some(ext) => is_supported_ext(ext),
        None => false,
    }
}

/// Whether a listed item shows in the browser: not hidden, and a directory or a supported file.
pub open spec fn kept(entry: ListedEntry) -> bool {
    !is_hidden(entry.name@) && (entry.is_dir || is_supported_audio(entry.path@))
}

/// The order of the browser: directories before files, then by name.
pub open spec fn model_le(a: NodeModel, b: NodeModel) -> bool {
    ||| (a.kind == BrowserEntryKind::Directory && b.kind == BrowserEntryKind::AudioFile)
    ||| (a.kind == b.kind && chars_le(a.name, b.name))
}

/// The browser order as a relation.
pub open spec fn node_order() -> spec_fn(NodeModel, NodeModel) -> bool {
    |a: NodeModel, b: NodeModel| model_le(a, b)
}

/// `nodes` in browser order; items that compare equal keep their listed order.
pub open spec fn sort_models(nodes: Seq<NodeModel>) -> Seq<NodeModel> {
    insertion_sorted(nodes, node_order())
}

/// The node that a kept listed item becomes: collapsed, with its kept
/// children in browser order.
pub open spec fn model_of(entry: ListedEntry) -> NodeModel
    decreases entry,
{
    NodeModel {
        name: entry.name@,
        path: entry.path@,
        kind: if entry.is_dir {
            BrowserEntryKind::Directory
        } else {
            BrowserEntryKind::AudioFile
        },
        expanded: false,
        children: if entry.is_dir {
            sort_models(kept_models(entry.children@))
        } else {
            seq![]
        },
    }
}

/// The nodes of the kept items of a listing, in listed order.
pub open spec fn kept_models(listing: Seq<ListedEntry>) -> Seq<NodeModel>
    decreases listing,
{
    if listing.len() == 0 {
        seq![]
    } else {
        (if kept(listing[0]) {
            seq![model_of(listing[0])]
        } else {
            seq![]
        }) + kept_models(listing.subrange(1, listing.len() as int))
    }
}

/// The browser tree of a listing.
pub open spec fn tree_of(listing: Seq<ListedEntry>) -> Seq<NodeModel> {
    sort_models(kept_models(listing))
}

proof fn lemma_kept_models_append(a: Seq<ListedEntry>, b: Seq<ListedEntry>)
    ensures
        kept_models(a + b) == kept_models(a) + kept_models(b),
    decreases a.len(),
{
    if a.len() == 0 {
        assert(a + b =~= b);
        assert(kept_models(a + b) =~= kept_models(a) + kept_models(b));
    } else {
        let rest = a.subrange(1, a.len() as int);
        lemma_kept_models_append(rest, b);
        assert((a + b).subrange(1, (a + b).len() as int) =~= rest + b);
        assert((a + b)[0] == a[0]);
        assert(kept_models(a + b) =~= kept_models(a) + kept_models(b));
    }
}

proof fn lemma_kept_models_take_next(listing: Seq<ListedEntry>, i: int)
    requires
        0 <= i < listing.len(),
    ensures
        kept_models(listing.take(i + 1)) == kept_models(listing.take(i)) + (if kept(listing[i]) {
            seq![model_of(listing[i])]
        } else {
            seq![]
        }),
{
    assert(listing.take(i + 1) =~= listing.take(i) + seq![listing[i]]);
    lemma_kept_models_append(listing.take(i), seq![listing[i]]);
    let single = seq![listing[i]];
    assert(single.subrange(1, 1) =~= Seq::<ListedEntry>::empty());
    assert(kept_models(single.subrange(1, 1)) =~= seq![]);
    assert(kept_models(single) =~= (if kept(listing[i]) {
        seq![model_of(listing[i])]
    } else {
        seq![]
    }));
}

fn node_le(a: &TreeNode, b: &TreeNode) -> (r: bool)
    ensures
        r == model_le(node_view(*a), node_view(*b)),
{
    if a.kind == BrowserEntryKind::Directory && b.kind == BrowserEntryKind::AudioFile {
        return true;
    }
    if a.kind != b.kind {
        return false;
    }
    let an = chars_of(a.name.as_str());
    let bn = chars_of(b.name.as_str());
    chars_le_exec(&an, &bn)
}

/// Inserts `node` into `nodes` at its place in browser order, after its equals.
fn insert_sorted(nodes: &mut Vec<TreeNode>, node: TreeNode)
    ensures
        views(final(nodes)@) == insert_sorted_by(views(old(nodes)@), node_view(node), node_order()),
{
    let ghost x = node_view(node);
    let mut j = nodes.len();
    proof {
        lemma_views(nodes@);
    }
    while j > 0 && !node_le(&nodes[j - 1], &node)
        invariant
            j <= nodes.len(),
            nodes@ == old(nodes)@,
            x == node_view(node),
            forall|k: int|
                j <= k < nodes.len() ==> !model_le(#[trigger] views(nodes@)[k], x),
            views(nodes@).len() == nodes@.len(),
            forall|k: int| 0 <= k < nodes.len() ==> #[trigger] views(nodes@)[k] == node_view(nodes@[k]),
        decreases j,
    {
        j -= 1;
    }
    let ghost vs = views(nodes@);
    let ghost a = vs.take(j as int);
    let ghost b = vs.skip(j as int);
    proof {
        assert(vs =~= a + b);
        lemma_insert_split(a, b, x, node_order());
    }
    nodes.insert(j, node);
    proof {
        let target = a.push(x) + b;
        assert forall|k: int| 0 <= k < nodes@.len() implies #[trigger] node_view(nodes@[k])
            == target[k] by {
            if k < j {
            } else if k == j {
            } else {
                assert(nodes@[k] == old(nodes)@[k - 1]);
            }
        }
        lemma_views_ext(nodes@, target);
    }
}

/// Whether `name` marks a hidden file or directory (it starts with `.`).
pub fn is_hidden_name(name: &str) -> (r: bool)
    ensures
        r == is_hidden(name@),
{
    let cs = chars_of(name);
    cs.len() > 0 && cs[0] == '.'
}

/// Whether `path` has one of the supported extensions, compared exactly.
pub fn is_supported_audio_file(path: &str) -> (r: bool)
    ensures
        r == is_supported_audio(path@),
{
    match path_extension(path) {
        Some(ext) => supported_extension(ext.as_str()),
        None => false,
    }
}

/// The browser tree of a directory listing: hidden items and files of other
/// formats are left out, directories come first, then everything by name, and
/// every node starts collapsed.
pub fn build_tree(listing: &Vec<ListedEntry>) -> (nodes: Vec<TreeNode>)
    ensures
        views(nodes@) == tree_of(listing@),
    decreases listing@,
{
    let mut nodes: Vec<TreeNode> = Vec::new();
    let mut i: usize = 0;
    assert(listing@.take(0) =~= Seq::<ListedEntry>::empty());
    assert(views(nodes@) =~= seq![]);
    while i < listing.len()
        invariant
            i <= listing.len(),
            views(nodes@) == sort_models(kept_models(listing@.take(i as int))),
        decreases listing.len() - i,
    {
        let entry = &listing[i];
        proof {
            lemma_kept_models_take_next(listing@, i as int);
        }
        let ghost prev = kept_models(listing@.take(i as int));
        if !is_hidden_name(entry.name.as_str()) {
            if entry.is_dir {
                proof {
                    assert(decreases_to!(listing@ => listing@[i as int]));
                }
                let children = build_tree(&entry.children);
                let node = TreeNode {
                    name: entry.name.clone(),
                    path: entry.path.clone(),
                    kind: BrowserEntryKind::Directory,
                    expanded: false,
                    children: children,
                };
                assert(node_view(node) == model_of(*entry));
                insert_sorted(&mut nodes, node);
                assert(prev.push(model_of(*entry)).drop_last() =~= prev);
                assert(sort_models(prev.push(model_of(*entry))) == insert_sorted_by(
                    sort_models(prev),
                    model_of(*entry),
                    node_order(),
                ));
            } else if is_supported_audio_file(entry.path.as_str()) {
                let node = TreeNode {
                    name: entry.name.clone(),
                    path: entry.path.clone(),
                    kind: BrowserEntryKind::AudioFile,
                    expanded: false,
                    children: Vec::new(),
                };
                assert(views(node.children@) =~= seq![]);
                assert(node_view(node) == model_of(*entry));
                insert_sorted(&mut nodes, node);
                assert(prev.push(model_of(*entry)).drop_last() =~= prev);
                assert(sort_models(prev.push(model_of(*entry))) == insert_sorted_by(
                    sort_models(prev),
                    model_of(*entry),
                    node_order(),
                ));
            } else {
                assert(prev + seq![] =~= prev);
            }
        } else {
            assert(prev + seq![] =~= prev);
        }
        assert(prev + seq![model_of(*entry)] =~= prev.push(model_of(*entry)));
        i += 1;
    }
    assert(listing@.take(listing.len() as int) =~= listing@);
    nodes
}

/// The browser lines of a listing, with every directory collapsed.
pub fn scan_entries(listing: &Vec<ListedEntry>) -> (entries: Vec<BrowserEntry>)
    ensures
        entry_views(entries@) == flattened(tree_of(listing@), 0),
{
    let tree = build_tree(listing);
    flatten_tree(&tree)
}


/// A playable file found in the library.
#[derive(Debug, Clone, PartialEq, Eq)]
pub struct Track {
    pub composer: String,
    pub title: String,
    pub path: String,
}

/// A track with its strings taken as character sequences.
pub struct TrackModel {
    pub composer: Seq<char>,
    pub title: Seq<char>,
    pub path: Seq<char>,
}

pub open spec fn track_view(track: Track) -> TrackModel {
    TrackModel { composer: track.composer@, title: track.title@, path: track.path@ }
}

/// The title of the track at `path`: its file stem, or "untitled".
pub open spec fn track_title(path: Seq<char>) -> Seq<char> {
    match file_stem(path) {
        Some(stem) => stem,
        None => "untitled"@,
    }
}

/// The tracks below a listing, in listed order, each with the names leading to
/// it from the library root: hidden items are skipped, directories searched,
/// and files of a supported format kept. The composer is the name of the
/// top-level item the file was found under.
pub open spec fn found_tracks(
    listing: Seq<ListedEntry>,
    composer: Option<Seq<char>>,
    prefix: Seq<Seq<char>>,
) -> Seq<(TrackModel, Seq<Seq<char>>)>
    decreases listing,
{
    if listing.len() == 0 {
        seq![]
    } else {
        let entry = listing[0];
        let top = match composer {
            Some(c) => c,
            None => entry.name@,
        };
        let key = prefix.push(entry.name@);
        (if is_hidden(entry.name@) {
            seq![]
        } else if entry.is_dir {
            found_tracks(entry.children@, Some(top), key)
        } else if is_supported_audio(entry.path@) {
            seq![(TrackModel { composer: top, title: track_title(entry.path@), path: entry.path@ }, key)]
        } else {
            seq![]
        }) + found_tracks(listing.subrange(1, listing.len() as int), composer, prefix)
    }
}

/// Paths compare component by component, each component as a string.
pub open spec fn components_le(a: Seq<Seq<char>>, b: Seq<Seq<char>>) -> bool
    decreases a.len(),
{
    if a.len() == 0 {
        true
    } else if b.len() == 0 {
        false
    } else if a[0] != b[0] {
        chars_le(a[0], b[0])
    } else {
        components_le(a.subrange(1, a.len() as int), b.subrange(1, b.len() as int))
    }
}

/// The order of tracks: by path.
pub open spec fn track_order() -> spec_fn((TrackModel, Seq<Seq<char>>), (TrackModel, Seq<Seq<char>>)) -> bool {
    |a: (TrackModel, Seq<Seq<char>>), b: (TrackModel, Seq<Seq<char>>)| components_le(a.1, b.1)
}

/// The tracks of a library listing, ordered by path.
pub open spec fn library_tracks(listing: Seq<ListedEntry>) -> Seq<TrackModel> {
    unkeyed(insertion_sorted(found_tracks(listing, None, seq![]), track_order()))
}

/// The tracks of keyed tracks.
pub open spec fn unkeyed(found: Seq<(TrackModel, Seq<Seq<char>>)>) -> Seq<TrackModel> {
    found.map_values(|p: (TrackModel, Seq<Seq<char>>)| p.0)
}

/// The models of a sequence of tracks.
pub open spec fn track_views(tracks: Seq<Track>) -> Seq<TrackModel> {
    tracks.map_values(|t: Track| track_view(t))
}

/// The models of tracks found, with their keys.
pub open spec fn keyed_views(found: Seq<(Track, Vec<String>)>) -> Seq<(TrackModel, Seq<Seq<char>>)> {
    found.map_values(|p: (Track, Vec<String>)| (track_view(p.0), string_views(p.1@)))
}

proof fn lemma_keyed_views_push(found: Seq<(Track, Vec<String>)>, x: (Track, Vec<String>))
    ensures
        keyed_views(found.push(x)) == keyed_views(found).push((track_view(x.0), string_views(x.1@))),
{
    assert(keyed_views(found.push(x)) =~= keyed_views(found).push((track_view(x.0), string_views(x.1@))));
}

proof fn lemma_found_tracks_take_next(
    listing: Seq<ListedEntry>,
    composer: Option<Seq<char>>,
    prefix: Seq<Seq<char>>,
    i: int,
)
    requires
        0 <= i < listing.len(),
    ensures
        found_tracks(listing.take(i + 1), composer, prefix) == found_tracks(listing.take(i), composer, prefix)
            + found_tracks(seq![listing[i]], composer, prefix),
    decreases i,
{
    let t1 = listing.take(i + 1);
    if i == 0 {
        assert(t1 =~= seq![listing[0]]);
        assert(listing.take(0) =~= Seq::<ListedEntry>::empty());
        assert(found_tracks(listing.take(0), composer, prefix) =~= seq![]);
        assert(found_tracks(t1, composer, prefix) =~= seq![] + found_tracks(seq![listing[i]], composer, prefix));
    } else {
        let rest = listing.subrange(1, listing.len() as int);
        lemma_found_tracks_take_next(rest, composer, prefix, i - 1);
        assert(t1.subrange(1, t1.len() as int) =~= rest.take(i));
        assert(listing.take(i).subrange(1, i) =~= rest.take(i - 1));
        assert(t1[0] == listing[0]);
        assert(listing.take(i)[0] == listing[0]);
        assert(rest[i - 1] == listing[i]);
        assert(found_tracks(t1, composer, prefix) =~= found_tracks(listing.take(i), composer, prefix)
            + found_tracks(seq![listing[i]], composer, prefix));
    }
}

fn extend_key(prefix: &Vec<String>, name: &String) -> (key: Vec<String>)
    ensures
        string_views(key@) == string_views(prefix@).push(name@),
{
    let mut key: Vec<String> = Vec::new();
    let mut i: usize = 0;
    while i < prefix.len()
        invariant
            i <= prefix.len(),
            string_views(key@) == string_views(prefix@).take(i as int),
            key@.len() == i,
        decreases prefix.len() - i,
    {
        assert(string_views(prefix@)[i as int] == prefix@[i as int]@);
        let ghost before = key@;
        key.push(prefix[i].clone());
        proof {
            lemma_string_views_push(before, key@[i as int]);
        }
        assert(string_views(key@) =~= string_views(prefix@).take(i + 1));
        i += 1;
    }
    let ghost before = key@;
    key.push(name.clone());
    proof {
        lemma_string_views_push(before, key@[i as int]);
    }
    assert(string_views(key@) =~= string_views(prefix@).push(name@));
    key
}

/// Collects the tracks below `listing` (see `found_tracks`).
fn scan_dir(
    listing: &Vec<ListedEntry>,
    composer: &Option<String>,
    prefix: &Vec<String>,
    tracks: &mut Vec<(Track, Vec<String>)>,
)
    ensures
        keyed_views(final(tracks)@) == keyed_views(old(tracks)@) + found_tracks(
            listing@,
            opt_view(*composer),
            string_views(prefix@),
        ),
    decreases listing@,
{
    let ghost top_view = opt_view(*composer);
    let ghost pre = string_views(prefix@);
    let mut i: usize = 0;
    assert(listing@.take(0) =~= Seq::<ListedEntry>::empty());
    assert(keyed_views(tracks@) =~= keyed_views(old(tracks)@) + found_tracks(
        listing@.take(0),
        top_view,
        pre,
    ));
    while i < listing.len()
        invariant
            i <= listing.len(),
            pre == string_views(prefix@),
            top_view == opt_view(*composer),
            keyed_views(tracks@) == keyed_views(old(tracks)@) + found_tracks(
                listing@.take(i as int),
                top_view,
                pre,
            ),
        decreases listing.len() - i,
    {
        let entry = &listing[i];
        let ghost before = keyed_views(tracks@);
        proof {
            lemma_found_tracks_take_next(listing@, top_view, pre, i as int);
        }
        let ghost single = seq![listing@[i as int]];
        let ghost top = match top_view {
            Some(c) => c,
            None => entry.name@,
        };
        assert(single.subrange(1, 1) =~= Seq::<ListedEntry>::empty());
        assert(found_tracks(single.subrange(1, 1), top_view, pre) =~= seq![]);
        if !is_hidden_name(entry.name.as_str()) {
            let top_name = match composer {
                Some(c) => c.clone(),
                None => entry.name.clone(),
            };
            assert(top_name@ == top);
            if entry.is_dir {
                let key = extend_key(prefix, &entry.name);
                proof {
                    assert(decreases_to!(listing@ => listing@[i as int]));
                }
                scan_dir(&entry.children, &Some(top_name), &key, tracks);
                assert(found_tracks(single, top_view, pre) =~= found_tracks(
                    entry.children@,
                    Some(top),
                    pre.push(entry.name@),
                ) + seq![]);
            } else if is_supported_audio_file(entry.path.as_str()) {
                let title = match path_file_stem(entry.path.as_str()) {
                    Some(stem) => stem,
                    None => String::from_str("untitled"),
                };
                let key = extend_key(prefix, &entry.name);
                let track = Track { composer: top_name, title, path: entry.path.clone() };
                let ghost old_tracks = tracks@;
                tracks.push((track, key));
                proof {
                    lemma_keyed_views_push(old_tracks, tracks@[tracks@.len() - 1]);
                }
                assert(found_tracks(single, top_view, pre) =~= seq![
                    (TrackModel { composer: top, title: track_title(entry.path@), path: entry.path@ }, pre.push(entry.name@)),
                ] + seq![]);
            } else {
                assert(found_tracks(single, top_view, pre) =~= seq![] + seq![]);
            }
        } else {
            assert(found_tracks(single, top_view, pre) =~= seq![] + seq![]);
        }
        assert(keyed_views(tracks@) =~= keyed_views(old(tracks)@) + found_tracks(
            listing@.take(i + 1),
            top_view,
            pre,
        ));
        i += 1;
    }
    assert(listing@.take(listing.len() as int) =~= listing@);
}


proof fn lemma_components_le_from(a: Seq<Seq<char>>, b: Seq<Seq<char>>, i: int)
    requires
        0 <= i <= a.len(),
        i <= b.len(),
        forall|j: int| 0 <= j < i ==> a[j] == b[j],
    ensures
        components_le(a, b) == components_le(a.subrange(i, a.len() as int), b.subrange(i, b.len() as int)),
    decreases i,
{
    if i > 0 {
        let a1 = a.subrange(1, a.len() as int);
        let b1 = b.subrange(1, b.len() as int);
        lemma_components_le_from(a1, b1, i - 1);
        assert(a1.subrange(i - 1, a1.len() as int) =~= a.subrange(i, a.len() as int));
        assert(b1.subrange(i - 1, b1.len() as int) =~= b.subrange(i, b.len() as int));
    } else {
        assert(a.subrange(0, a.len() as int) =~= a);
        assert(b.subrange(0, b.len() as int) =~= b);
    }
}

fn components_le_exec(a: &Vec<String>, b: &Vec<String>) -> (r: bool)
    ensures
        r == components_le(string_views(a@), string_views(b@)),
{
    let ghost av = string_views(a@);
    let ghost bv = string_views(b@);
    let mut i: usize = 0;
    while i < a.len() && i < b.len()
        invariant
            i <= a.len(),
            i <= b.len(),
            av == string_views(a@),
            bv == string_views(b@),
            forall|j: int| 0 <= j < i ==> av[j] == bv[j],
        decreases a.len() - i,
    {
        assert(av[i as int] == a@[i as int]@ && bv[i as int] == b@[i as int]@);
        if a[i] != b[i] {
            proof {
                lemma_components_le_from(av, bv, i as int);
                let a1 = av.subrange(i as int, av.len() as int);
                let b1 = bv.subrange(i as int, bv.len() as int);
                assert(a1[0] == av[i as int] && b1[0] == bv[i as int]);
            }
            let ac = chars_of(a[i].as_str());
            let bc = chars_of(b[i].as_str());
            return chars_le_exec(&ac, &bc);
        }
        i += 1;
    }
    proof {
        lemma_components_le_from(av, bv, i as int);
    }
    i == a.len()
}

fn copy_track(track: &Track) -> (r: Track)
    ensures
        r == *track,
{
    Track { composer: track.composer.clone(), title: track.title.clone(), path: track.path.clone() }
}

/// Inserts a keyed track at its place in path order, after its equals.
fn insert_track(tracks: &mut Vec<(Track, Vec<String>)>, item: (Track, Vec<String>))
    ensures
        keyed_views(final(tracks)@) == insert_sorted_by(
            keyed_views(old(tracks)@),
            (track_view(item.0), string_views(item.1@)),
            track_order(),
        ),
{
    let ghost x = (track_view(item.0), string_views(item.1@));
    let ghost vs = keyed_views(tracks@);
    let mut j = tracks.len();
    while j > 0 && !components_le_exec(&tracks[j - 1].1, &item.1)
        invariant
            j <= tracks.len(),
            tracks@ == old(tracks)@,
            vs == keyed_views(tracks@),
            x == (track_view(item.0), string_views(item.1@)),
            forall|k: int| j <= k < tracks.len() ==> !(track_order())(#[trigger] vs[k], x),
        decreases j,
    {
        assert(vs[j - 1] == (track_view(tracks@[j - 1].0), string_views(tracks@[j - 1].1@)));
        j -= 1;
    }
    proof {
        if j > 0 {
            assert(vs[j - 1] == (track_view(tracks@[j - 1].0), string_views(tracks@[j - 1].1@)));
        }
    }
    let ghost a = vs.take(j as int);
    let ghost b = vs.skip(j as int);
    proof {
        assert(vs =~= a + b);
        lemma_insert_split(a, b, x, track_order());
    }
    tracks.insert(j, item);
    assert(keyed_views(tracks@) =~= a.push(x) + b);
}

/// The playable files of a library listing, each with the top-level item it was
/// found under as composer and its file stem as title, ordered by path.
pub fn scan_library(listing: &Vec<ListedEntry>) -> (tracks: Vec<Track>)
    ensures
        track_views(tracks@) == library_tracks(listing@),
{
    let mut found: Vec<(Track, Vec<String>)> = Vec::new();
    let prefix: Vec<String> = Vec::new();
    assert(string_views(prefix@) =~= Seq::<Seq<char>>::empty());
    assert(keyed_views(found@) =~= seq![]);
    scan_dir(listing, &None, &prefix, &mut found);
    let ghost all = keyed_views(found@);
    let found_count = found.len();
    assert(all.len() == found@.len() && found@.len() == found_count);
    let mut sorted: Vec<(Track, Vec<String>)> = Vec::new();
    let mut taken: usize = 0;
    assert(keyed_views(sorted@) =~= insertion_sorted(all.take(0), track_order()));
    while found.len() > 0
        invariant
            taken <= all.len(),
            all.len() <= usize::MAX,
            found@.len() == all.len() - taken,
            keyed_views(found@) == all.skip(taken as int),
            keyed_views(sorted@) == insertion_sorted(all.take(taken as int), track_order()),
        decreases found.len(),
    {
        let ghost before = found@;
        let item = found.remove(0);
        assert(keyed_views(before)[0] == (track_view(item.0), string_views(item.1@)));
        assert(all.take(taken + 1).drop_last() =~= all.take(taken as int));
        assert(all.take(taken + 1).last() == all[taken as int]);
        assert(all[taken as int] == all.skip(taken as int)[0]);
        insert_track(&mut sorted, item);
        assert forall|k: int| 0 <= k < found@.len() implies #[trigger] keyed_views(found@)[k]
            == all.skip(taken + 1)[k] by {
            assert(found@[k] == before[k + 1]);
            assert(keyed_views(before)[k + 1] == all.skip(taken as int)[k + 1]);
        }
        assert(keyed_views(found@) =~= all.skip(taken + 1));
        taken += 1;
    }
    assert(all.take(taken as int) =~= all);
    let ghost ordered = keyed_views(sorted@);
    let mut tracks: Vec<Track> = Vec::new();
    let mut i: usize = 0;
    while i < sorted.len()
        invariant
            i <= sorted.len(),
            ordered == keyed_views(sorted@),
            tracks@.len() == i,
            ordered.len() == sorted@.len(),
            track_views(tracks@) == unkeyed(ordered.take(i as int)),
        decreases sorted.len() - i,
    {
        let track = copy_track(&sorted[i].0);
        assert(ordered[i as int].0 == track_view(sorted@[i as int].0));
        let ghost before = tracks@;
        tracks.push(track);
        assert forall|k: int| 0 <= k <= i implies #[trigger] track_views(tracks@)[k]
            == unkeyed(ordered.take(i + 1))[k] by {
            if k < i {
                assert(tracks@[k] == before[k]);
                assert(track_views(before)[k] == unkeyed(ordered.take(i as int))[k]);
            }
        }
        assert(track_views(tracks@) =~= unkeyed(ordered.take(i + 1)));
        i += 1;
    }
    assert(ordered.take(sorted.len() as int) =~= ordered);
    tracks
}

/// The browser order orders every two nodes, transitively.
pub proof fn lemma_node_order_total_preorder()
    ensures
        total_preorder(node_order()),
{
    assert forall|a: NodeModel, b: NodeModel, c: NodeModel|
        #[trigger] node_order()(a, b) && #[trigger] node_order()(b, c) implies node_order()(a, c) by {
        if a.kind == b.kind && b.kind == c.kind {
            lemma_chars_le_transitive(a.name, b.name, c.name);
        }
    }
    assert forall|a: NodeModel, b: NodeModel| #[trigger] node_order()(a, b) || node_order()(b, a) by {
        lemma_chars_le_total(a.name, b.name);
    }
}

proof fn lemma_components_le_total(a: Seq<Seq<char>>, b: Seq<Seq<char>>)
    ensures
        components_le(a, b) || components_le(b, a),
    decreases a.len(),
{
    if a.len() > 0 && b.len() > 0 {
        if a[0] == b[0] {
            lemma_components_le_total(a.subrange(1, a.len() as int), b.subrange(1, b.len() as int));
        } else {
            lemma_chars_le_total(a[0], b[0]);
        }
    }
}

proof fn lemma_components_le_transitive(a: Seq<Seq<char>>, b: Seq<Seq<char>>, c: Seq<Seq<char>>)
    requires
        components_le(a, b),
        components_le(b, c),
    ensures
        components_le(a, c),
    decreases a.len(),
{
    if a.len() > 0 {
        if a[0] != b[0] && b[0] != c[0] {
            lemma_chars_le_transitive(a[0], b[0], c[0]);
            if a[0] == c[0] {
                lemma_chars_le_antisymmetric(a[0], b[0]);
            }
        } else if a[0] == b[0] && b[0] == c[0] {
            lemma_components_le_transitive(
                a.subrange(1, a.len() as int),
                b.subrange(1, b.len() as int),
                c.subrange(1, c.len() as int),
            );
        }
    }
}

proof fn lemma_track_order_total_preorder()
    ensures
        total_preorder(track_order()),
{
    assert forall|a: (TrackModel, Seq<Seq<char>>), b: (TrackModel, Seq<Seq<char>>), c: (TrackModel, Seq<Seq<char>>)|
        #[trigger] track_order()(a, b) && #[trigger] track_order()(b, c) implies track_order()(a, c) by {
        lemma_components_le_transitive(a.1, b.1, c.1);
    }
    assert forall|a: (TrackModel, Seq<Seq<char>>), b: (TrackModel, Seq<Seq<char>>)|
        #[trigger] track_order()(a, b) || track_order()(b, a) by {
        lemma_components_le_total(a.1, b.1);
    }
}

/// The tracks of a listing are the tracks found below it, each as often as it
/// is found, sorted by the names on their path from the library root.
pub proof fn law_library_tracks_sorted(listing: Seq<ListedEntry>)
    ensures
        insertion_sorted(found_tracks(listing, None, seq![]), track_order()).to_multiset()
            == found_tracks(listing, None, seq![]).to_multiset(),
        is_sorted_by(insertion_sorted(found_tracks(listing, None, seq![]), track_order()), track_order()),
        library_tracks(listing) == unkeyed(insertion_sorted(found_tracks(listing, None, seq![]), track_order())),
{
    lemma_track_order_total_preorder();
    lemma_insertion_sorted(found_tracks(listing, None, seq![]), track_order());
}

/// Every node that a kept listed item yields: not hidden, a directory or a
/// supported file, and collapsed.
pub open spec fn shown_node(node: NodeModel) -> bool {
    &&& !is_hidden(node.name)
    &&& (node.kind == BrowserEntryKind::Directory || is_supported_audio(node.path))
    &&& !node.expanded
    &&& forall|j: int| 0 <= j < node.children.len() ==> !(#[trigger] node.children[j]).expanded
}

proof fn lemma_kept_models_shown(listing: Seq<ListedEntry>)
    ensures
        forall|k: int| 0 <= k < kept_models(listing).len() ==> shown_node(#[trigger] kept_models(listing)[k]),
    decreases listing, 0int,
{
    if listing.len() > 0 {
        if listing[0].is_dir {
            assert(decreases_to!(listing => listing[0]));
            law_tree_of_listing(listing[0].children@);
        }
        let rest = listing.subrange(1, listing.len() as int);
        lemma_kept_models_shown(rest);
        let head = if kept(listing[0]) {
            seq![model_of(listing[0])]
        } else {
            seq![]
        };
        assert forall|k: int| 0 <= k < kept_models(listing).len() implies shown_node(
            #[trigger] kept_models(listing)[k],
        ) by {
            if k < head.len() {
                assert(kept_models(listing)[k] == model_of(listing[0]));
            } else {
                assert(kept_models(listing)[k] == kept_models(rest)[k - head.len()]);
            }
        }
    }
}

/// The browser tree of a listing holds exactly the kept items of the listing
/// (hidden items and unsupported files left out), each collapsed, ordered
/// directories first and then by name. The same holds of every sub-tree, being
/// the tree of the corresponding sub-listing.
pub proof fn law_tree_of_listing(listing: Seq<ListedEntry>)
    ensures
        tree_of(listing).to_multiset() == kept_models(listing).to_multiset(),
        is_sorted_by(tree_of(listing), node_order()),
        forall|k: int| 0 <= k < tree_of(listing).len() ==> shown_node(#[trigger] tree_of(listing)[k]),
    decreases listing, 1int,
{
    broadcast use vstd::seq_lib::group_to_multiset_ensures;

    lemma_node_order_total_preorder();
    lemma_insertion_sorted(kept_models(listing), node_order());
    lemma_kept_models_shown(listing);
    let t = tree_of(listing);
    let m = kept_models(listing);
    assert forall|k: int| 0 <= k < t.len() implies shown_node(#[trigger] t[k]) by {
        assert(t.to_multiset().contains(t[k]));
        assert(m.to_multiset().contains(t[k]));
        let j = choose|j: int| 0 <= j < m.len() && m[j] == t[k];
        assert(shown_node(m[j]));
    }
}

/// In the browser tree of a listing, of two items of the same kind whose names
/// are one a proper extension of the other ("Disc 1" and "Disc 10"), the one
/// with the shorter name comes first.
pub proof fn law_tree_prefix_names_first(listing: Seq<ListedEntry>, i: int, j: int, s: Seq<char>)
    requires
        0 <= i < tree_of(listing).len(),
        0 <= j < tree_of(listing).len(),
        tree_of(listing)[i].kind == tree_of(listing)[j].kind,
        tree_of(listing)[i].name == tree_of(listing)[j].name + s,
        s.len() > 0,
    ensures
        j < i,
{
    let t = tree_of(listing);
    law_tree_of_listing(listing);
    law_chars_le_prefix(t[j].name, s);
    if i < j {
        assert(node_order()(t[i], t[j]));
    }
    if i == j {
        assert(t[i].name.len() == t[j].name.len() + s.len());
    }
}

/// In the browser tree of a listing no directory comes after a file, and two
/// items of the same kind come in name order.
pub proof fn law_tree_directories_first(listing: Seq<ListedEntry>, i: int, j: int)
    requires
        0 <= i < j < tree_of(listing).len(),
    ensures
        !(tree_of(listing)[i].kind == BrowserEntryKind::AudioFile && tree_of(listing)[j].kind
            == BrowserEntryKind::Directory),
        tree_of(listing)[i].kind == tree_of(listing)[j].kind ==> chars_le(
            tree_of(listing)[i].name,
            tree_of(listing)[j].name,
        ),
{
    law_tree_of_listing(listing);
    assert(node_order()(tree_of(listing)[i], tree_of(listing)[j]));
}

/// In the track list of a library (ordered by the names on each track's path
/// from the root), when two tracks' names agree up to some position and there
/// the one name is a proper extension of the other ("Bach" and "Bach Cantatas"),
/// the track with the shorter name comes first.
pub proof fn law_tracks_prefix_component_first(listing: Seq<ListedEntry>, i: int, j: int, m: int, s: Seq<char>)
    requires
        ({
            let f = insertion_sorted(found_tracks(listing, None, seq![]), track_order());
            &&& 0 <= i < f.len()
            &&& 0 <= j < f.len()
            &&& 0 <= m < f[i].1.len()
            &&& m < f[j].1.len()
            &&& forall|k: int| 0 <= k < m ==> f[i].1[k] == f[j].1[k]
            &&& f[j].1[m] == f[i].1[m] + s
        }),
        s.len() > 0,
    ensures
        i < j,
{
    let f = insertion_sorted(found_tracks(listing, None, seq![]), track_order());
    law_library_tracks_sorted(listing);
    let a = f[i].1;
    let b = f[j].1;
    law_chars_le_prefix(a[m], s);
    if j < i {
        assert(track_order()(f[j], f[i]));
        assert(components_le(b, a));
        lemma_components_le_from(b, a, m);
        let bs = b.subrange(m, b.len() as int);
        let as_ = a.subrange(m, a.len() as int);
        assert(bs[0] == b[m] && as_[0] == a[m]);
        assert(b[m] != a[m]) by {
            assert(b[m].len() == a[m].len() + s.len());
        }
    }
    if i == j {
        assert(b[m].len() == a[m].len() + s.len());
    }
}

/// A track's title is its file name without the final extension: with an
/// extension `e`, the title, a dot and `e` make up the file name; without one,
/// the title is the file name; a path without a file name gives "untitled".
pub proof fn law_track_title(path: Seq<char>)
    ensures
        match file_name(path) {
            Some(name) => match extension(path) {
                Some(e) => track_title(path) + seq!['.'] + e == name,
                None => track_title(path) == name,
            },
            None => track_title(path) == "untitled"@,
        },
{
    match file_name(path) {
        Some(name) => {
            lemma_last_index_bounds(name, '.');
            let dot = last_index(name, '.');
            if dot > 0 {
                assert(name =~= name.subrange(0, dot) + seq!['.'] + name.subrange(dot + 1, name.len() as int));
            }
        },
        None => {},
    }
}

proof fn lemma_found_tracks_titled(listing: Seq<ListedEntry>, composer: Option<Seq<char>>, prefix: Seq<Seq<char>>)
    ensures
        forall|k: int|
            0 <= k < found_tracks(listing, composer, prefix).len() ==> (#[trigger] found_tracks(
                listing,
                composer,
                prefix,
            )[k]).0.title == track_title(found_tracks(listing, composer, prefix)[k].0.path),
    decreases listing,
{
    if listing.len() > 0 {
        let entry = listing[0];
        let top = match composer {
            Some(c) => c,
            None => entry.name@,
        };
        let key = prefix.push(entry.name@);
        let rest = listing.subrange(1, listing.len() as int);
        lemma_found_tracks_titled(rest, composer, prefix);
        if !is_hidden(entry.name@) && entry.is_dir {
            assert(decreases_to!(listing => listing[0]));
            assert(decreases_to!(listing[0] => listing[0].children));
            assert(decreases_to!(listing[0].children => listing[0].children@));
            lemma_found_tracks_titled(entry.children@, Some(top), key);
        }
        let head = if is_hidden(entry.name@) {
            seq![]
        } else if entry.is_dir {
            found_tracks(entry.children@, Some(top), key)
        } else if is_supported_audio(entry.path@) {
            seq![(TrackModel { composer: top, title: track_title(entry.path@), path: entry.path@ }, key)]
        } else {
            seq![]
        };
        let all = found_tracks(listing, composer, prefix);
        let tail = found_tracks(rest, composer, prefix);
        assert(all == head + tail);
        assert forall|k: int| 0 <= k < all.len() implies (#[trigger] all[k]).0.title == track_title(all[k].0.path) by {
            if k < head.len() {
                assert(all[k] == head[k]);
            } else {
                assert(all[k] == tail[k - head.len()]);
            }
        }
    }
}

/// Every track of a library is titled by its file name without the final
/// extension (see `law_track_title`).
pub proof fn law_library_track_titles(listing: Seq<ListedEntry>)
    ensures
        forall|k: int|
            0 <= k < library_tracks(listing).len() ==> {
                let t = #[trigger] library_tracks(listing)[k];
                match file_name(t.path) {
                    Some(name) => match extension(t.path) {
                        Some(e) => t.title + seq!['.'] + e == name,
                        None => t.title == name,
                    },
                    None => t.title == "untitled"@,
                }
            },
{
    broadcast use vstd::seq_lib::group_to_multiset_ensures;

    let found = found_tracks(listing, None, seq![]);
    let sorted = insertion_sorted(found, track_order());
    lemma_track_order_total_preorder();
    lemma_insertion_sorted(found, track_order());
    lemma_found_tracks_titled(listing, None, seq![]);
    assert forall|k: int| 0 <= k < library_tracks(listing).len() implies {
        let t = #[trigger] library_tracks(listing)[k];
        match file_name(t.path) {
            Some(name) => match extension(t.path) {
                Some(e) => t.title + seq!['.'] + e == name,
                None => t.title == name,
            },
            None => t.title == "untitled"@,
        }
    } by {
        let t = library_tracks(listing)[k];
        assert(t == sorted[k].0);
        assert(sorted.to_multiset().contains(sorted[k]));
        assert(found.to_multiset().contains(sorted[k]));
        let w = choose|w: int| 0 <= w < found.len() && found[w] == sorted[k];
        assert(found[w].0.title == track_title(found[w].0.path));
        law_track_title(t.path);
    }
}

} // verus!
