use vstd::prelude::*;

verus! {


use crate::cleaning::mark_for_deletion::should_delete_spec;
use crate::configs::config::PathConfig;
use crate::logging::folder_tree_helpers::LeafView;
use crate::text::lex_le;

/// A snapshot of part of the file system, taken before the walk: one file
/// with its size in bytes, or one directory with its entries. Every entry
/// carries its full path.
pub enum FsEntry {
    File { path: String, size: u64 },
    Dir { path: String, entries: Vec<FsEntry> },
}

impl FsEntry {
    pub open spec fn path_spec(&self) -> Seq<char> {
        match self {
            FsEntry::File { path, .. } => path@,
            FsEntry::Dir { path, .. } => path@,
        }
    }

    pub open spec fn is_file_spec(&self) -> bool {
        self is File
    }

    pub fn path(&self) -> (r: &str)
        ensures
            r@ == self.path_spec(),
    {
        match self {
            FsEntry::File { path, .. } => path.as_str(),
            FsEntry::Dir { path, .. } => path.as_str(),
        }
    }
}

/// The number of entries in a subtree, counting the entry itself;
/// the measure by which the walk's loops terminate.
pub open spec fn entry_size(e: FsEntry) -> nat
    decreases e,
{
    match e {
        FsEntry::File { .. } => 1,
        FsEntry::Dir { entries, .. } => 1 + entry_list_size(entries@),
    }
}

pub open spec fn entry_list_size(es: Seq<FsEntry>) -> nat
    decreases es,
{
    if es.len() == 0 {
        0
    } else {
        entry_size(es[0]) + entry_list_size(es.drop_first())
    }
}

/// The pruned, sorted form of a surviving entry: what the walk's output
/// describes. A directory node keeps only surviving children, in
/// lexicographic path order.
pub struct Node {
    pub path: Seq<char>,
    pub is_file: bool,
    pub size: nat,
    pub children: Seq<Node>,
}

/// Inserts a node into a path-sorted sequence, after every node whose path
/// does not exceed the new one.
pub open spec fn insert_node(x: Node, s: Seq<Node>) -> Seq<Node>
    decreases s.len(),
{
    if s.len() == 0 {
        seq![x]
    } else if lex_le(s[0].path, x.path) {
        seq![s[0]] + insert_node(x, s.drop_first())
    } else {
        seq![x] + s
    }
}

/// Insertion sort of nodes by path.
pub open spec fn sort_nodes(s: Seq<Node>) -> Seq<Node>
    decreases s.len(),
{
    if s.len() == 0 {
        s
    } else {
        insert_node(s[0], sort_nodes(s.drop_first()))
    }
}

/// Whether a child entry survives the walk, and what it becomes: an
/// eligible file becomes a file node; a directory, reached only when the
/// walk recurses, becomes a directory node when any of its entries
/// survives, and is pruned when none does.
pub open spec fn shape_child(e: FsEntry, c: PathConfig) -> Option<Node>
    decreases e,
{
    match e {
        FsEntry::File { path, size } => if should_delete_spec(path@, c) {
            Some(Node { path: path@, is_file: true, size: size as nat, children: Seq::empty() })
        } else {
            None
        },
        FsEntry::Dir { path, entries } => if c.recursive {
            let cs = sort_nodes(shape_list(entries@, c));
            if cs.len() == 0 {
                None
            } else {
                Some(Node { path: path@, is_file: false, size: 0, children: cs })
            }
        } else {
            None
        },
    }
}

/// The nodes of the surviving entries of a list, in list order.
pub open spec fn shape_list(es: Seq<FsEntry>, c: PathConfig) -> Seq<Node>
    decreases es,
{
    if es.len() == 0 {
        Seq::empty()
    } else {
        (match shape_child(es[0], c) {
            Some(n) => seq![n],
            None => Seq::empty(),
        }) + shape_list(es.drop_first(), c)
    }
}

/// The leaf views a node's subtree contributes to the output: the node's own
/// leaf, then its children's subtrees in order, the final child closing its
/// sibling group.
pub open spec fn node_leaves(n: Node, depth: nat, is_last: bool) -> Seq<LeafView>
    decreases n,
{
    seq![LeafView { key: n.path, is_file: n.is_file, depth, is_last }] + nodes_leaves(
        n.children,
        depth + 1,
    )
}

pub open spec fn nodes_leaves(ns: Seq<Node>, depth: nat) -> Seq<LeafView>
    decreases ns,
{
    if ns.len() == 0 {
        Seq::empty()
    } else {
        node_leaves(ns[0], depth, ns.len() == 1) + nodes_leaves(ns.drop_first(), depth)
    }
}

/// Bytes of the files in a node's subtree: what is scheduled for deletion.
pub open spec fn node_marked_size(n: Node) -> nat
    decreases n,
{
    (if n.is_file {
        n.size
    } else {
        0nat
    }) + nodes_marked_size(n.children)
}

pub open spec fn nodes_marked_size(ns: Seq<Node>) -> nat
    decreases ns,
{
    if ns.len() == 0 {
        0
    } else {
        node_marked_size(ns[0]) + nodes_marked_size(ns.drop_first())
    }
}

/// Number of file nodes in a node's subtree.
pub open spec fn node_file_count(n: Node) -> nat
    decreases n,
{
    (if n.is_file {
        1nat
    } else {
        0nat
    }) + nodes_file_count(n.children)
}

pub open spec fn nodes_file_count(ns: Seq<Node>) -> nat
    decreases ns,
{
    if ns.len() == 0 {
        0
    } else {
        node_file_count(ns[0]) + nodes_file_count(ns.drop_first())
    }
}

/// Number of directory nodes in a node's subtree, the node itself included.
pub open spec fn node_dir_count(n: Node) -> nat
    decreases n,
{
    (if n.is_file {
        0nat
    } else {
        1nat
    }) + nodes_dir_count(n.children)
}

pub open spec fn nodes_dir_count(ns: Seq<Node>) -> nat
    decreases ns,
{
    if ns.len() == 0 {
        0
    } else {
        node_dir_count(ns[0]) + nodes_dir_count(ns.drop_first())
    }
}

/// Bytes of every file a child entry lets the walk read: all files below it
/// when the walk recurses, only direct files otherwise. Deletion eligibility
/// plays no part here.
pub open spec fn scanned_child(e: FsEntry, c: PathConfig) -> nat
    decreases e,
{
    match e {
        FsEntry::File { size, .. } => size as nat,
        FsEntry::Dir { entries, .. } => if c.recursive {
            scanned_list(entries@, c)
        } else {
            0
        },
    }
}

pub open spec fn scanned_list(es: Seq<FsEntry>, c: PathConfig) -> nat
    decreases es,
{
    if es.len() == 0 {
        0
    } else {
        scanned_child(es[0], c) + scanned_list(es.drop_first(), c)
    }
}

/// Bytes of the eligible files below a child entry.
pub open spec fn marked_child(e: FsEntry, c: PathConfig) -> nat
    decreases e,
{
    match e {
        FsEntry::File { path, size } => if should_delete_spec(path@, c) {
            size as nat
        } else {
            0
        },
        FsEntry::Dir { entries, .. } => if c.recursive {
            marked_list(entries@, c)
        } else {
            0
        },
    }
}

pub open spec fn marked_list(es: Seq<FsEntry>, c: PathConfig) -> nat
    decreases es,
{
    if es.len() == 0 {
        0
    } else {
        marked_child(es[0], c) + marked_list(es.drop_first(), c)
    }
}

/// Number of eligible files below a child entry.
pub open spec fn marked_count_child(e: FsEntry, c: PathConfig) -> nat
    decreases e,
{
    match e {
        FsEntry::File { path, .. } => if should_delete_spec(path@, c) {
            1
        } else {
            0
        },
        FsEntry::Dir { entries, .. } => if c.recursive {
            marked_count_list(entries@, c)
        } else {
            0
        },
    }
}

pub open spec fn marked_count_list(es: Seq<FsEntry>, c: PathConfig) -> nat
    decreases es,
{
    if es.len() == 0 {
        0
    } else {
        marked_count_child(es[0], c) + marked_count_list(es.drop_first(), c)
    }
}

/// Whether a child entry holds a deletion target: an eligible file, or,
/// when the walk recurses, a directory with such a file anywhere below it.
pub open spec fn has_target(e: FsEntry, c: PathConfig) -> bool
    decreases e,
{
    match e {
        FsEntry::File { path, .. } => should_delete_spec(path@, c),
        FsEntry::Dir { entries, .. } => c.recursive && list_has_target(entries@, c),
    }
}

pub open spec fn list_has_target(es: Seq<FsEntry>, c: PathConfig) -> bool
    decreases es,
{
    es.len() > 0 && (has_target(es[0], c) || list_has_target(es.drop_first(), c))
}

/// Number of directories below a child entry that hold a deletion target.
pub open spec fn dir_target_count_child(e: FsEntry, c: PathConfig) -> nat
    decreases e,
{
    match e {
        FsEntry::File { .. } => 0,
        FsEntry::Dir { entries, .. } => if c.recursive && list_has_target(entries@, c) {
            1 + dir_target_count_list(entries@, c)
        } else {
            0
        },
    }
}

pub open spec fn dir_target_count_list(es: Seq<FsEntry>, c: PathConfig) -> nat
    decreases es,
{
    if es.len() == 0 {
        0
    } else {
        dir_target_count_child(es[0], c) + dir_target_count_list(es.drop_first(), c)
    }
}

/// The leaves the walk emits for a whole tree. A root that is itself a file
/// is emitted as a single leaf with no directory semantics. A root directory
/// is emitted, followed by its surviving subtree, exactly when any of its
/// entries survives; otherwise the output is empty.
pub open spec fn walk_leaves(root: FsEntry, c: PathConfig) -> Seq<LeafView> {
    match root {
        FsEntry::File { path, .. } => seq![
            LeafView { key: path@, is_file: true, depth: 0, is_last: true },
        ],
        FsEntry::Dir { path, entries } => {
            let cs = sort_nodes(shape_list(entries@, c));
            if cs.len() == 0 {
                Seq::empty()
            } else {
                node_leaves(Node { path: path@, is_file: false, size: 0, children: cs }, 0, true)
            }
        },
    }
}

/// Bytes of every file the walk reads. A root that is a file is emitted
/// without reading its metadata, so it counts nothing.
pub open spec fn walk_scanned_size(root: FsEntry, c: PathConfig) -> nat {
    match root {
        FsEntry::File { .. } => 0,
        FsEntry::Dir { entries, .. } => scanned_list(entries@, c),
    }
}

/// Bytes of the files the walk marks for deletion.
pub open spec fn walk_marked_size(root: FsEntry, c: PathConfig) -> nat {
    match root {
        FsEntry::File { .. } => 0,
        FsEntry::Dir { entries, .. } => marked_list(entries@, c),
    }
}

/// Number of files the walk marks for deletion.
pub open spec fn walk_file_count(root: FsEntry, c: PathConfig) -> nat {
    match root {
        FsEntry::File { .. } => 0,
        FsEntry::Dir { entries, .. } => marked_count_list(entries@, c),
    }
}

/// Number of directories the walk emits, the root itself not counted.
pub open spec fn walk_dir_count(root: FsEntry, c: PathConfig) -> nat {
    match root {
        FsEntry::File { .. } => 0,
        FsEntry::Dir { entries, .. } => dir_target_count_list(entries@, c),
    }
}

pub proof fn lemma_entry_size_pos(e: FsEntry)
    ensures
        entry_size(e) >= 1,
{
}

pub proof fn lemma_entry_list_size_push(es: Seq<FsEntry>, x: FsEntry)
    ensures
        entry_list_size(es.push(x)) == entry_list_size(es) + entry_size(x),
    decreases es.len(),
{
    if es.len() == 0 {
        assert(es.push(x)[0] == x);
        assert(es.push(x).drop_first() =~= Seq::<FsEntry>::empty());
        assert(entry_list_size(Seq::<FsEntry>::empty()) == 0);
        assert(entry_list_size(es.push(x)) == entry_size(x) + entry_list_size(
            es.push(x).drop_first(),
        ));
    } else {
        assert(es.push(x)[0] == es[0]);
        assert(es.push(x).drop_first() =~= es.drop_first().push(x));
        lemma_entry_list_size_push(es.drop_first(), x);
    }
}

proof fn lemma_insert_node_sums(x: Node, s: Seq<Node>)
    ensures
        insert_node(x, s).len() == s.len() + 1,
        nodes_marked_size(insert_node(x, s)) == node_marked_size(x) + nodes_marked_size(s),
        nodes_file_count(insert_node(x, s)) == node_file_count(x) + nodes_file_count(s),
        nodes_dir_count(insert_node(x, s)) == node_dir_count(x) + nodes_dir_count(s),
    decreases s.len(),
{
    if s.len() == 0 {
        let t = insert_node(x, s);
        assert(t =~= seq![x]);
        assert(t[0] == x);
        assert(t.drop_first() =~= Seq::<Node>::empty());
        assert(nodes_marked_size(t) == node_marked_size(x) + nodes_marked_size(t.drop_first()));
        assert(nodes_marked_size(t.drop_first()) == 0);
        assert(nodes_marked_size(s) == 0);
        assert(nodes_file_count(t) == node_file_count(x) + nodes_file_count(t.drop_first()));
        assert(nodes_file_count(t.drop_first()) == 0);
        assert(nodes_file_count(s) == 0);
        assert(nodes_dir_count(t) == node_dir_count(x) + nodes_dir_count(t.drop_first()));
        assert(nodes_dir_count(t.drop_first()) == 0);
        assert(nodes_dir_count(s) == 0);
    } else if lex_le(s[0].path, x.path) {
        lemma_insert_node_sums(x, s.drop_first());
        let t = insert_node(x, s);
        assert(t =~= seq![s[0]] + insert_node(x, s.drop_first()));
        assert(t[0] == s[0]);
        assert(t.drop_first() =~= insert_node(x, s.drop_first()));
        assert(nodes_marked_size(t) == node_marked_size(s[0]) + nodes_marked_size(
            t.drop_first(),
        ));
        assert(nodes_marked_size(s) == node_marked_size(s[0]) + nodes_marked_size(s.drop_first()));
        assert(nodes_file_count(t) == node_file_count(s[0]) + nodes_file_count(t.drop_first()));
        assert(nodes_file_count(s) == node_file_count(s[0]) + nodes_file_count(s.drop_first()));
        assert(nodes_dir_count(t) == node_dir_count(s[0]) + nodes_dir_count(t.drop_first()));
        assert(nodes_dir_count(s) == node_dir_count(s[0]) + nodes_dir_count(s.drop_first()));
    } else {
        let t = insert_node(x, s);
        assert(t =~= seq![x] + s);
        assert(t[0] == x);
        assert(t.drop_first() =~= s);
        assert(nodes_marked_size(t) == node_marked_size(x) + nodes_marked_size(t.drop_first()));
        assert(nodes_file_count(t) == node_file_count(x) + nodes_file_count(t.drop_first()));
        assert(nodes_dir_count(t) == node_dir_count(x) + nodes_dir_count(t.drop_first()));
    }
}

pub proof fn lemma_sort_nodes_sums(s: Seq<Node>)
    ensures
        sort_nodes(s).len() == s.len(),
        nodes_marked_size(sort_nodes(s)) == nodes_marked_size(s),
        nodes_file_count(sort_nodes(s)) == nodes_file_count(s),
        nodes_dir_count(sort_nodes(s)) == nodes_dir_count(s),
    decreases s.len(),
{
    if s.len() > 0 {
        lemma_sort_nodes_sums(s.drop_first());
        lemma_insert_node_sums(s[0], sort_nodes(s.drop_first()));
    }
}

/// A node of the pruned tree is well-formed when file nodes are leaves and
/// every directory node has at least one child; every subtree then holds a file.
pub open spec fn node_wf(n: Node) -> bool
    decreases n,
{
    if n.is_file {
        n.children.len() == 0
    } else {
        n.children.len() > 0 && nodes_wf(n.children)
    }
}

pub open spec fn nodes_wf(ns: Seq<Node>) -> bool
    decreases ns,
{
    forall|i: int| 0 <= i < ns.len() ==> node_wf(#[trigger] ns[i])
}

proof fn lemma_insert_node_elements(x: Node, s: Seq<Node>)
    ensures
        forall|k: int|
            0 <= k < insert_node(x, s).len() ==> (#[trigger] insert_node(x, s)[k] == x || exists|i: int|
                0 <= i < s.len() && s[i] == insert_node(x, s)[k]),
    decreases s.len(),
{
    let t = insert_node(x, s);
    if s.len() == 0 {
        assert(t[0] == x);
    } else if lex_le(s[0].path, x.path) {
        lemma_insert_node_elements(x, s.drop_first());
        let u = insert_node(x, s.drop_first());
        assert forall|k: int| 0 <= k < t.len() implies (#[trigger] t[k] == x || exists|i: int|
            0 <= i < s.len() && s[i] == t[k]) by {
            if k == 0 {
                assert(t[0] == s[0]);
                assert(s[0] == t[0]);
            } else {
                assert(t[k] == u[k - 1]);
                if u[k - 1] == x {
                } else {
                    let i = choose|i: int| 0 <= i < s.drop_first().len() && s.drop_first()[i] == u[
                        k - 1];
                    assert(s[i + 1] == t[k]);
                }
            }
        }
    } else {
        assert forall|k: int| 0 <= k < t.len() implies (#[trigger] t[k] == x || exists|i: int|
            0 <= i < s.len() && s[i] == t[k]) by {
            if k == 0 {
                assert(t[0] == x);
            } else {
                assert(s[k - 1] == t[k]);
            }
        }
    }
}

proof fn lemma_insert_node_wf(x: Node, s: Seq<Node>)
    requires
        node_wf(x),
        nodes_wf(s),
    ensures
        nodes_wf(insert_node(x, s)),
{
    lemma_insert_node_elements(x, s);
    let t = insert_node(x, s);
    assert forall|k: int| 0 <= k < t.len() implies node_wf(#[trigger] t[k]) by {
        if t[k] == x {
        } else {
            let i = choose|i: int| 0 <= i < s.len() && s[i] == t[k];
            assert(node_wf(s[i]));
        }
    }
}

pub proof fn lemma_sort_nodes_wf(s: Seq<Node>)
    requires
        nodes_wf(s),
    ensures
        nodes_wf(sort_nodes(s)),
    decreases s.len(),
{
    if s.len() > 0 {
        assert forall|i: int| 0 <= i < s.drop_first().len() implies node_wf(
            #[trigger] s.drop_first()[i],
        ) by {
            assert(s.drop_first()[i] == s[i + 1]);
        }
        lemma_sort_nodes_wf(s.drop_first());
        lemma_insert_node_wf(s[0], sort_nodes(s.drop_first()));
    }
}

/// A node sequence sorted by path, in the lexicographic order.
pub open spec fn nodes_sorted(ns: Seq<Node>) -> bool {
    forall|i: int, j: int| 0 <= i < j < ns.len() ==> lex_le(#[trigger] ns[i].path, #[trigger] ns[j].path)
}

proof fn lemma_insert_node_sorted(x: Node, s: Seq<Node>)
    requires
        nodes_sorted(s),
    ensures
        nodes_sorted(insert_node(x, s)),
    decreases s.len(),
{
    let t = insert_node(x, s);
    if s.len() == 0 {
    } else if lex_le(s[0].path, x.path) {
        assert(nodes_sorted(s.drop_first())) by {
            assert forall|i: int, j: int|
                0 <= i < j < s.drop_first().len() implies lex_le(
                #[trigger] s.drop_first()[i].path,
                #[trigger] s.drop_first()[j].path,
            ) by {
                assert(s.drop_first()[i] == s[i + 1]);
                assert(s.drop_first()[j] == s[j + 1]);
            }
        }
        lemma_insert_node_sorted(x, s.drop_first());
        lemma_insert_node_elements(x, s.drop_first());
        let u = insert_node(x, s.drop_first());
        assert forall|i: int, j: int| 0 <= i < j < t.len() implies lex_le(
            #[trigger] t[i].path,
            #[trigger] t[j].path,
        ) by {
            if i == 0 {
                assert(t[0] == s[0]);
                assert(t[j] == u[j - 1]);
                if u[j - 1] == x {
                } else {
                    let m = choose|m: int|
                        0 <= m < s.drop_first().len() && s.drop_first()[m] == u[j - 1];
                    assert(s.drop_first()[m] == s[m + 1]);
                    assert(lex_le(s[0].path, s[m + 1].path));
                }
            } else {
                assert(t[i] == u[i - 1]);
                assert(t[j] == u[j - 1]);
            }
        }
    } else {
        crate::text::lemma_lex_le_total(s[0].path, x.path);
        assert(lex_le(x.path, s[0].path));
        assert forall|i: int, j: int| 0 <= i < j < t.len() implies lex_le(
            #[trigger] t[i].path,
            #[trigger] t[j].path,
        ) by {
            if i == 0 {
                assert(t[0] == x);
                assert(t[j] == s[j - 1]);
                if j == 1 {
                } else {
                    assert(lex_le(s[0].path, s[j - 1].path));
                    crate::text::lemma_lex_le_trans(x.path, s[0].path, s[j - 1].path);
                }
            } else {
                assert(t[i] == s[i - 1]);
                assert(t[j] == s[j - 1]);
            }
        }
    }
}

pub proof fn lemma_sort_nodes_sorted(s: Seq<Node>)
    ensures
        nodes_sorted(sort_nodes(s)),
    decreases s.len(),
{
    if s.len() > 0 {
        lemma_sort_nodes_sorted(s.drop_first());
        lemma_insert_node_sorted(s[0], sort_nodes(s.drop_first()));
    }
}

/// The leaf at `j` is a file inside the subtree of the directory leaf at `i`:
/// it comes later, and everything between them lies strictly deeper.
pub open spec fn has_file_descendant(s: Seq<LeafView>, i: int) -> bool {
    exists|j: int|
        i < j < s.len() && (#[trigger] s[j]).is_file && (forall|k: int|
            i < k <= j ==> s[k].depth > s[i].depth)
}

/// The emitted block of one well-formed node: it opens with the node's own
/// leaf, descendants lie strictly deeper, depth never jumps by more than one,
/// a file leaf occurs, and every directory leaf has a file leaf in its subtree.
#[verifier::rlimit(100)]
#[verifier::spinoff_prover]
pub proof fn lemma_node_leaves_props(n: Node, d: nat, l: bool, s: Seq<LeafView>)
    requires
        node_wf(n),
        s == node_leaves(n, d, l),
    ensures
        s.len() >= 1,
        s[0] == (LeafView { key: n.path, is_file: n.is_file, depth: d, is_last: l }),
        forall|k: int| 1 <= k < s.len() ==> (#[trigger] s[k]).depth > d,
        forall|k: int|
            #![trigger s[k], s[k - 1]]
            1 <= k < s.len() ==> s[k].depth <= s[k - 1].depth + 1,
        exists|j: int| 0 <= j < s.len() && (#[trigger] s[j]).is_file,
        forall|i: int|
            0 <= i < s.len() && !(#[trigger] s[i]).is_file ==> has_file_descendant(s, i),
    decreases n,
{
    let hd = LeafView { key: n.path, is_file: n.is_file, depth: d, is_last: l };
    let b = nodes_leaves(n.children, d + 1);
    assert(s =~= seq![hd] + b);
    assert(s[0] == hd);
    assert(forall|k: int| 1 <= k < s.len() ==> #[trigger] s[k] == b[k - 1]);
    if n.is_file {
        assert(n.children.len() == 0);
        assert(b =~= Seq::<LeafView>::empty());
        assert(s.len() == 1);
        assert(s[0].is_file);
    } else {
        assert(n.children.len() > 0 && nodes_wf(n.children));
        lemma_nodes_leaves_props(n.children, d + 1, b);
        assert(b.len() >= 1);
        assert(s[1].depth == b[0].depth);
        assert(b[0].depth == d + 1);
        assert forall|k: int| #![trigger s[k], s[k - 1]] 2 <= k < s.len() implies s[k].depth <= s[k
            - 1].depth + 1 by {
            assert(s[k] == b[k - 1]);
            assert(s[k - 1] == b[k - 2]);
            assert(b[k - 1].depth <= b[k - 2].depth + 1);
        }
        let jb = choose|j: int| 0 <= j < b.len() && (#[trigger] b[j]).is_file;
        assert(s[jb + 1].is_file);
        assert forall|i: int|
            0 <= i < s.len() && !(#[trigger] s[i]).is_file implies has_file_descendant(s, i) by {
            if i == 0 {
                assert(s[jb + 1].is_file);
                assert(forall|k: int| 0 < k <= jb + 1 ==> (#[trigger] s[k]).depth > s[0].depth);
                assert(has_file_descendant(s, 0));
            } else {
                assert(s[i] == b[i - 1]);
                assert(!b[i - 1].is_file);
                assert(has_file_descendant(b, i - 1));
                let j2 = choose|j2: int|
                    (i - 1) < j2 < b.len() && (#[trigger] b[j2]).is_file && (forall|k: int|
                        (i - 1) < k <= j2 ==> (#[trigger] b[k]).depth > b[i - 1].depth);
                assert(s[j2 + 1].is_file);
                assert forall|k: int| i < k <= j2 + 1 implies (#[trigger] s[k]).depth
                    > s[i].depth by {
                    assert(s[k] == b[k - 1]);
                    assert(b[k - 1].depth > b[i - 1].depth);
                }
                assert(has_file_descendant(s, i));
            }
        }
    }
}

/// The emitted block of a well-formed forest of sibling nodes at depth `d`.
#[verifier::rlimit(100)]
#[verifier::spinoff_prover]
pub proof fn lemma_nodes_leaves_props(ns: Seq<Node>, d: nat, s: Seq<LeafView>)
    requires
        nodes_wf(ns),
        s == nodes_leaves(ns, d),
    ensures
        ns.len() == 0 ==> s.len() == 0,
        ns.len() > 0 ==> s.len() >= 1 && s[0].depth == d,
        forall|k: int| 0 <= k < s.len() ==> (#[trigger] s[k]).depth >= d,
        forall|k: int|
            #![trigger s[k], s[k - 1]]
            1 <= k < s.len() ==> s[k].depth <= s[k - 1].depth + 1,
        ns.len() > 0 ==> exists|j: int| 0 <= j < s.len() && (#[trigger] s[j]).is_file,
        forall|i: int|
            0 <= i < s.len() && !(#[trigger] s[i]).is_file ==> has_file_descendant(s, i),
    decreases ns,
{
    if ns.len() > 0 {
        let a = node_leaves(ns[0], d, ns.len() == 1);
        let b = nodes_leaves(ns.drop_first(), d);
        assert(s =~= a + b);
        assert(node_wf(ns[0]));
        assert(nodes_wf(ns.drop_first())) by {
            assert forall|i: int| 0 <= i < ns.drop_first().len() implies node_wf(
                #[trigger] ns.drop_first()[i],
            ) by {
                assert(ns.drop_first()[i] == ns[i + 1]);
            }
        }
        lemma_node_leaves_props(ns[0], d, ns.len() == 1, a);
        lemma_nodes_leaves_props(ns.drop_first(), d, b);
        let al = a.len();
        assert(forall|k: int| 0 <= k < al ==> #[trigger] s[k] == a[k]);
        assert(forall|k: int| al <= k < s.len() ==> #[trigger] s[k] == b[k - al]);
        assert(s[0].depth == d);
        assert forall|k: int| 0 <= k < s.len() implies (#[trigger] s[k]).depth >= d by {
            if k < al {
                assert(s[k] == a[k]);
                if k >= 1 {
                    assert(a[k].depth > d);
                }
            } else {
                assert(s[k] == b[k - al]);
            }
        }
        assert forall|k: int| #![trigger s[k], s[k - 1]] 1 <= k < s.len() implies s[k].depth <= s[k
            - 1].depth + 1 by {
            if k < al {
                assert(s[k] == a[k] && s[k - 1] == a[k - 1]);
            } else if k == al {
                assert(s[k] == b[0]);
                assert(b[0].depth == d);
                assert(s[k - 1].depth >= d);
            } else {
                assert(s[k] == b[k - al] && s[k - 1] == b[k - al - 1]);
            }
        }
        assert(exists|j: int| 0 <= j < s.len() && (#[trigger] s[j]).is_file) by {
            let ja = choose|j: int| 0 <= j < a.len() && (#[trigger] a[j]).is_file;
            assert(s[ja] == a[ja]);
            assert(s[ja].is_file);
        }
        assert forall|i: int|
            0 <= i < s.len() && !(#[trigger] s[i]).is_file implies has_file_descendant(s, i) by {
            if i < al {
                assert(s[i] == a[i]);
                assert(has_file_descendant(a, i));
                let j = choose|j: int|
                    i < j < a.len() && (#[trigger] a[j]).is_file && (forall|k: int|
                        i < k <= j ==> (#[trigger] a[k]).depth > a[i].depth);
                assert(s[j].is_file);
                assert forall|k: int| i < k <= j implies (#[trigger] s[k]).depth > s[i].depth by {
                    assert(s[k] == a[k]);
                }
                assert(has_file_descendant(s, i));
            } else {
                assert(s[i] == b[i - al]);
                assert(has_file_descendant(b, i - al));
                let j = choose|j: int|
                    (i - al) < j < b.len() && (#[trigger] b[j]).is_file && (forall|k: int|
                        (i - al) < k <= j ==> (#[trigger] b[k]).depth > b[i - al].depth);
                assert(s[j + al].is_file);
                assert forall|k: int| i < k <= j + al implies (#[trigger] s[k]).depth
                    > s[i].depth by {
                    assert(s[k] == b[k - al]);
                    assert(b[k - al].depth > b[i - al].depth);
                }
                assert(has_file_descendant(s, i));
            }
        }
    }
}

/// Pruning invariant: a folder leaf stands in the walk's output exactly when
/// a marked file lies below it. In the output sequence, every folder leaf is
/// followed by a file leaf within its own subtree; and a folder entry of the
/// snapshot survives the walk precisely when it transitively holds a file
/// marked for deletion.
pub proof fn lemma_pruning_invariant(root: FsEntry, c: PathConfig, s: Seq<LeafView>)
    requires
        s == walk_leaves(root, c),
    ensures
        forall|i: int|
            0 <= i < s.len() && !(#[trigger] s[i]).is_file ==> has_file_descendant(s, i),
        forall|e: FsEntry| ((#[trigger] shape_child(e, c)) is Some) == has_target(e, c),
{
    assert forall|e: FsEntry| ((#[trigger] shape_child(e, c)) is Some) == has_target(e, c) by {
        lemma_shape_counts_child(e, c);
    }
    match root {
        FsEntry::File { .. } => {
            assert(s.len() == 1 && s[0].is_file);
        },
        FsEntry::Dir { path, entries } => {
            let cs = sort_nodes(shape_list(entries@, c));
            if cs.len() > 0 {
                let n = Node { path: path@, is_file: false, size: 0, children: cs };
                lemma_shape_counts_list(entries@, c);
                lemma_sort_nodes_wf(shape_list(entries@, c));
                assert(node_wf(n));
                lemma_node_leaves_props(n, 0, true, s);
            }
        },
    }
}

/// Order invariant: the output opens at depth zero, every later leaf lies at
/// depth one or more, depth never grows by more than one per step, and the
/// nearest earlier leaf at no greater depth is a sibling at the same depth
/// or the parent one level up.
pub proof fn lemma_order_invariant(root: FsEntry, c: PathConfig, s: Seq<LeafView>)
    requires
        s == walk_leaves(root, c),
    ensures
        s.len() > 0 ==> s[0].depth == 0,
        forall|k: int| 1 <= k < s.len() ==> (#[trigger] s[k]).depth >= 1,
        forall|k: int|
            #![trigger s[k], s[k - 1]]
            1 <= k < s.len() ==> s[k].depth <= s[k - 1].depth + 1,
        forall|i: int, j: int|
            #![trigger s[i], s[j]]
            0 <= i < j < s.len() && s[i].depth <= s[j].depth && (forall|k: int|
                i < k < j ==> (#[trigger] s[k]).depth > s[j].depth) ==> s[j].depth <= s[i].depth
                + 1,
{
    match root {
        FsEntry::File { .. } => {
            assert(s.len() == 1);
        },
        FsEntry::Dir { path, entries } => {
            let cs = sort_nodes(shape_list(entries@, c));
            if cs.len() > 0 {
                let n = Node { path: path@, is_file: false, size: 0, children: cs };
                lemma_shape_counts_list(entries@, c);
                lemma_sort_nodes_wf(shape_list(entries@, c));
                assert(node_wf(n));
                lemma_node_leaves_props(n, 0, true, s);
            }
        },
    }
    assert forall|i: int, j: int|
        #![trigger s[i], s[j]]
        0 <= i < j < s.len() && s[i].depth <= s[j].depth && (forall|k: int|
            i < k < j ==> (#[trigger] s[k]).depth > s[j].depth) implies s[j].depth <= s[i].depth
        + 1 by {
        if i == j - 1 {
            assert(s[j].depth <= s[j - 1].depth + 1);
        } else {
            assert(s[i + 1].depth <= s[i].depth + 1);
            assert(s[i + 1].depth > s[j].depth);
        }
    }
}

/// The leaf that opens the emitted block of the `i`-th of a directory's
/// surviving children.
pub open spec fn emitted_child_head(cs: Seq<Node>, d: nat, i: int) -> LeafView {
    node_leaves(cs[i], d, i == cs.len() - 1)[0]
}

/// Last-sibling correctness: the children a directory's walk emits are in
/// lexicographic path order; the leaf of exactly the final child carries the
/// last-sibling flag, and no sibling's path exceeds that child's path.
pub proof fn lemma_last_sibling_correctness(es: Seq<FsEntry>, c: PathConfig, d: nat)
    ensures
        nodes_sorted(sort_nodes(shape_list(es, c))),
        ({
            let cs = sort_nodes(shape_list(es, c));
            forall|i: int|
                0 <= i < cs.len() ==> ((#[trigger] emitted_child_head(cs, d, i)).is_last <==> i
                    == cs.len() - 1)
        }),
        ({
            let cs = sort_nodes(shape_list(es, c));
            forall|i: int| 0 <= i < cs.len() ==> lex_le(
                (#[trigger] cs[i]).path,
                cs[cs.len() - 1].path,
            )
        }),
{
    let cs = sort_nodes(shape_list(es, c));
    lemma_sort_nodes_sorted(shape_list(es, c));
    assert forall|i: int| 0 <= i < cs.len() implies ((#[trigger] emitted_child_head(
        cs,
        d,
        i,
    )).is_last <==> i == cs.len() - 1) by {
        let l = (i == cs.len() - 1);
        assert(node_leaves(cs[i], d, l)[0] == (LeafView {
            key: cs[i].path,
            is_file: cs[i].is_file,
            depth: d,
            is_last: l,
        }));
    }
    assert forall|i: int| 0 <= i < cs.len() implies lex_le(
        (#[trigger] cs[i]).path,
        cs[cs.len() - 1].path,
    ) by {
        if i == cs.len() - 1 {
            crate::text::lemma_lex_le_refl(cs[i].path);
        }
    }
}

/// A surviving child, its node, and the child's own accounting agree:
/// survival coincides with holding a target, and the node's sums equal the
/// entry-side sums.
pub proof fn lemma_shape_counts_child(e: FsEntry, c: PathConfig)
    ensures
        (shape_child(e, c) is Some) == has_target(e, c),
        shape_child(e, c) matches Some(n) ==> {
            &&& n.path == e.path_spec()
            &&& n.is_file == e.is_file_spec()
            &&& node_wf(n)
            &&& node_marked_size(n) == marked_child(e, c)
            &&& node_file_count(n) == marked_count_child(e, c)
            &&& node_dir_count(n) == dir_target_count_child(e, c)
        },
        shape_child(e, c) is None ==> marked_child(e, c) == 0 && marked_count_child(e, c) == 0
            && dir_target_count_child(e, c) == 0,
    decreases entry_size(e), 0nat,
{
    match e {
        FsEntry::File { .. } => {
        },
        FsEntry::Dir { path, entries } => {
            if c.recursive {
                assert(entry_list_size(entries@) < entry_size(e));
                lemma_shape_counts_list(entries@, c);
                lemma_sort_nodes_sums(shape_list(entries@, c));
                lemma_sort_nodes_wf(shape_list(entries@, c));
            }
        },
    }
}

/// List form of `lemma_shape_counts_child`, over all entries of a directory.
pub proof fn lemma_shape_counts_list(es: Seq<FsEntry>, c: PathConfig)
    ensures
        nodes_marked_size(shape_list(es, c)) == marked_list(es, c),
        nodes_file_count(shape_list(es, c)) == marked_count_list(es, c),
        nodes_dir_count(shape_list(es, c)) == dir_target_count_list(es, c),
        (shape_list(es, c).len() > 0) == list_has_target(es, c),
        nodes_wf(shape_list(es, c)),
    decreases entry_list_size(es), 1nat,
{
    if es.len() == 0 {
    } else {
        lemma_entry_size_pos(es[0]);
        assert(entry_list_size(es) == entry_size(es[0]) + entry_list_size(es.drop_first()));
        lemma_shape_counts_child(es[0], c);
        lemma_shape_counts_list(es.drop_first(), c);
        let rest = shape_list(es.drop_first(), c);
        let t = shape_list(es, c);
        match shape_child(es[0], c) {
            Some(n) => {
                assert(t =~= seq![n] + rest);
                assert(t[0] == n);
                assert(t.drop_first() =~= rest);
                assert(nodes_marked_size(t) == node_marked_size(n) + nodes_marked_size(rest));
                assert(nodes_file_count(t) == node_file_count(n) + nodes_file_count(rest));
                assert(nodes_dir_count(t) == node_dir_count(n) + nodes_dir_count(rest));
                assert(nodes_wf(t)) by {
                    assert forall|k: int| 0 <= k < t.len() implies node_wf(#[trigger] t[k]) by {
                        if k > 0 {
                            assert(t[k] == rest[k - 1]);
                        }
                    }
                }
            },
            None => {
                assert(t =~= rest);
            },
        }
    }
}

/// What is marked never outweighs what is scanned.
pub proof fn lemma_marked_le_scanned_child(e: FsEntry, c: PathConfig)
    ensures
        marked_child(e, c) <= scanned_child(e, c),
    decreases entry_size(e), 0nat,
{
    match e {
        FsEntry::File { .. } => {
        },
        FsEntry::Dir { entries, .. } => {
            if c.recursive {
                assert(entry_list_size(entries@) < entry_size(e));
                lemma_marked_le_scanned_list(entries@, c);
            }
        },
    }
}

pub proof fn lemma_marked_le_scanned_list(es: Seq<FsEntry>, c: PathConfig)
    ensures
        marked_list(es, c) <= scanned_list(es, c),
    decreases entry_list_size(es), 1nat,
{
    if es.len() > 0 {
        lemma_entry_size_pos(es[0]);
        assert(entry_list_size(es) == entry_size(es[0]) + entry_list_size(es.drop_first()));
        lemma_marked_le_scanned_child(es[0], c);
        lemma_marked_le_scanned_list(es.drop_first(), c);
    }
}

/// The counters never outgrow the number of entries.
pub proof fn lemma_counts_le_size_child(e: FsEntry, c: PathConfig)
    ensures
        marked_count_child(e, c) <= entry_size(e),
        dir_target_count_child(e, c) <= entry_size(e),
    decreases entry_size(e), 0nat,
{
    match e {
        FsEntry::File { .. } => {
        },
        FsEntry::Dir { entries, .. } => {
            if c.recursive {
                assert(entry_list_size(entries@) < entry_size(e));
                lemma_counts_le_size_list(entries@, c);
            }
        },
    }
}

pub proof fn lemma_counts_le_size_list(es: Seq<FsEntry>, c: PathConfig)
    ensures
        marked_count_list(es, c) <= entry_list_size(es),
        dir_target_count_list(es, c) <= entry_list_size(es),
    decreases entry_list_size(es), 1nat,
{
    if es.len() > 0 {
        lemma_entry_size_pos(es[0]);
        assert(entry_list_size(es) == entry_size(es[0]) + entry_list_size(es.drop_first()));
        lemma_counts_le_size_child(es[0], c);
        lemma_counts_le_size_list(es.drop_first(), c);
    }
}

/// Holding a target is the same as some entry holding one.
pub proof fn lemma_list_has_target_index(es: Seq<FsEntry>, c: PathConfig)
    ensures
        list_has_target(es, c) <==> exists|i: int|
            0 <= i < es.len() && has_target(#[trigger] es[i], c),
    decreases es.len(),
{
    if es.len() > 0 {
        lemma_list_has_target_index(es.drop_first(), c);
        if has_target(es[0], c) {
        } else if list_has_target(es.drop_first(), c) {
            let i = choose|i: int|
                0 <= i < es.drop_first().len() && has_target(#[trigger] es.drop_first()[i], c);
            assert(es[i + 1] == es.drop_first()[i]);
            assert(has_target(es[i + 1], c));
        } else {
            assert forall|i: int| 0 <= i < es.len() implies !has_target(#[trigger] es[i], c) by {
                if i > 0 {
                    assert(es.drop_first()[i - 1] == es[i]);
                }
            }
        }
    }
}

/// Appending an entry appends its node, if it has one.
pub proof fn lemma_shape_list_push(es: Seq<FsEntry>, x: FsEntry, c: PathConfig)
    ensures
        shape_list(es.push(x), c) == shape_list(es, c) + (match shape_child(x, c) {
            Some(n) => seq![n],
            None => Seq::<Node>::empty(),
        }),
    decreases es.len(),
{
    if es.len() == 0 {
        assert(es.push(x)[0] == x);
        assert(es.push(x).drop_first() =~= Seq::<FsEntry>::empty());
        assert(shape_list(Seq::<FsEntry>::empty(), c) =~= Seq::<Node>::empty());
        assert(shape_list(es.push(x), c) =~= (match shape_child(x, c) {
            Some(n) => seq![n],
            None => Seq::<Node>::empty(),
        }) + Seq::<Node>::empty());
        assert(shape_list(es, c) =~= Seq::<Node>::empty());
        assert(shape_list(es.push(x), c) =~= shape_list(es, c) + (match shape_child(x, c) {
            Some(n) => seq![n],
            None => Seq::<Node>::empty(),
        }));
    } else {
        assert(es.push(x)[0] == es[0]);
        assert(es.push(x).drop_first() =~= es.drop_first().push(x));
        lemma_shape_list_push(es.drop_first(), x, c);
        assert(shape_list(es.push(x), c) =~= shape_list(es, c) + (match shape_child(x, c) {
            Some(n) => seq![n],
            None => Seq::<Node>::empty(),
        }));
    }
}

/// Entries sorted by path, mirroring `insert_node` and `sort_nodes`;
/// this is the order the executable walk puts candidate children in.
pub open spec fn insert_entry(x: FsEntry, s: Seq<FsEntry>) -> Seq<FsEntry>
    decreases s.len(),
{
    if s.len() == 0 {
        seq![x]
    } else if lex_le(s[0].path_spec(), x.path_spec()) {
        seq![s[0]] + insert_entry(x, s.drop_first())
    } else {
        seq![x] + s
    }
}

pub open spec fn sort_entries(s: Seq<FsEntry>) -> Seq<FsEntry>
    decreases s.len(),
{
    if s.len() == 0 {
        s
    } else {
        insert_entry(s[0], sort_entries(s.drop_first()))
    }
}

/// Whether every entry of the list survives the walk.
pub open spec fn all_candidates(s: Seq<FsEntry>, c: PathConfig) -> bool {
    forall|i: int| 0 <= i < s.len() ==> shape_child(#[trigger] s[i], c) is Some
}

/// The node of a surviving entry.
pub open spec fn child_node(e: FsEntry, c: PathConfig) -> Node {
    shape_child(e, c)->0
}

pub proof fn lemma_insert_entry_sizes(x: FsEntry, s: Seq<FsEntry>)
    ensures
        insert_entry(x, s).len() == s.len() + 1,
        entry_list_size(insert_entry(x, s)) == entry_size(x) + entry_list_size(s),
    decreases s.len(),
{
    let t = insert_entry(x, s);
    if s.len() == 0 {
        assert(t[0] == x);
        assert(t.drop_first() =~= Seq::<FsEntry>::empty());
        assert(entry_list_size(t) == entry_size(x) + entry_list_size(t.drop_first()));
        assert(entry_list_size(t.drop_first()) == 0);
        assert(entry_list_size(s) == 0);
    } else if lex_le(s[0].path_spec(), x.path_spec()) {
        lemma_insert_entry_sizes(x, s.drop_first());
        assert(t[0] == s[0]);
        assert(t.drop_first() =~= insert_entry(x, s.drop_first()));
        assert(entry_list_size(t) == entry_size(s[0]) + entry_list_size(t.drop_first()));
        assert(entry_list_size(s) == entry_size(s[0]) + entry_list_size(s.drop_first()));
    } else {
        assert(t[0] == x);
        assert(t.drop_first() =~= s);
        assert(entry_list_size(t) == entry_size(x) + entry_list_size(t.drop_first()));
    }
}

pub proof fn lemma_sort_entries_sizes(s: Seq<FsEntry>)
    ensures
        sort_entries(s).len() == s.len(),
        entry_list_size(sort_entries(s)) == entry_list_size(s),
    decreases s.len(),
{
    if s.len() > 0 {
        lemma_sort_entries_sizes(s.drop_first());
        lemma_insert_entry_sizes(s[0], sort_entries(s.drop_first()));
        assert(entry_list_size(s) == entry_size(s[0]) + entry_list_size(s.drop_first()));
    }
}

/// Inserting a surviving entry into a list of surviving entries inserts its
/// node into the list's nodes, at the same place.
pub proof fn lemma_insert_entry_shape(x: FsEntry, s: Seq<FsEntry>, c: PathConfig)
    requires
        shape_child(x, c) is Some,
        all_candidates(s, c),
    ensures
        all_candidates(insert_entry(x, s), c),
        shape_list(insert_entry(x, s), c) == insert_node(child_node(x, c), shape_list(s, c)),
    decreases s.len(),
{
    lemma_shape_counts_child(x, c);
    let nx = child_node(x, c);
    let t = insert_entry(x, s);
    if s.len() == 0 {
        assert(t[0] == x);
        assert(t.drop_first() =~= Seq::<FsEntry>::empty());
        assert(shape_list(Seq::<FsEntry>::empty(), c) =~= Seq::<Node>::empty());
        assert(shape_list(t.drop_first(), c) =~= Seq::<Node>::empty());
        assert(shape_list(t, c) =~= seq![nx]);
        assert(shape_list(s, c) =~= Seq::<Node>::empty());
        assert(insert_node(nx, shape_list(s, c)) =~= seq![nx]);
        assert(all_candidates(t, c)) by {
            assert forall|i: int| 0 <= i < t.len() implies shape_child(#[trigger] t[i], c)
                is Some by {
                assert(t[i] == x);
            }
        }
    } else {
        lemma_shape_counts_child(s[0], c);
        assert(shape_child(s[0], c) is Some);
        let n0 = child_node(s[0], c);
        assert(n0.path == s[0].path_spec());
        let rest = shape_list(s.drop_first(), c);
        assert(shape_list(s, c) =~= seq![n0] + rest);
        assert(shape_list(s, c)[0] == n0);
        assert(shape_list(s, c).drop_first() =~= rest);
        assert(all_candidates(s.drop_first(), c)) by {
            assert forall|i: int| 0 <= i < s.drop_first().len() implies shape_child(
                #[trigger] s.drop_first()[i],
                c,
            ) is Some by {
                assert(s.drop_first()[i] == s[i + 1]);
            }
        }
        if lex_le(s[0].path_spec(), x.path_spec()) {
            lemma_insert_entry_shape(x, s.drop_first(), c);
            assert(t[0] == s[0]);
            assert(t.drop_first() =~= insert_entry(x, s.drop_first()));
            assert(shape_list(t, c) =~= seq![n0] + shape_list(insert_entry(x, s.drop_first()), c));
            assert(lex_le(shape_list(s, c)[0].path, nx.path));
            assert(insert_node(nx, shape_list(s, c)) == seq![n0] + insert_node(
                nx,
                shape_list(s, c).drop_first(),
            ));
            assert(shape_list(t, c) =~= insert_node(nx, shape_list(s, c)));
            assert(all_candidates(t, c)) by {
                assert forall|i: int| 0 <= i < t.len() implies shape_child(#[trigger] t[i], c)
                    is Some by {
                    if i > 0 {
                        assert(t[i] == insert_entry(x, s.drop_first())[i - 1]);
                    }
                }
            }
        } else {
            assert(t =~= seq![x] + s);
            assert(t[0] == x);
            assert(t.drop_first() =~= s);
            assert(shape_list(t, c) =~= seq![nx] + shape_list(s, c));
            assert(!lex_le(shape_list(s, c)[0].path, nx.path));
            assert(insert_node(nx, shape_list(s, c)) == seq![nx] + shape_list(s, c));
            assert(all_candidates(t, c)) by {
                assert forall|i: int| 0 <= i < t.len() implies shape_child(#[trigger] t[i], c)
                    is Some by {
                    if i > 0 {
                        assert(t[i] == s[i - 1]);
                    }
                }
            }
        }
    }
}

/// Sorting surviving entries sorts their nodes.
pub proof fn lemma_sort_entries_shape(s: Seq<FsEntry>, c: PathConfig)
    requires
        all_candidates(s, c),
    ensures
        all_candidates(sort_entries(s), c),
        shape_list(sort_entries(s), c) == sort_nodes(shape_list(s, c)),
    decreases s.len(),
{
    if s.len() > 0 {
        lemma_shape_counts_child(s[0], c);
        let n0 = child_node(s[0], c);
        let rest = shape_list(s.drop_first(), c);
        assert(shape_list(s, c) =~= seq![n0] + rest);
        assert(shape_list(s, c)[0] == n0);
        assert(shape_list(s, c).drop_first() =~= rest);
        assert(all_candidates(s.drop_first(), c)) by {
            assert forall|i: int| 0 <= i < s.drop_first().len() implies shape_child(
                #[trigger] s.drop_first()[i],
                c,
            ) is Some by {
                assert(s.drop_first()[i] == s[i + 1]);
            }
        }
        lemma_sort_entries_shape(s.drop_first(), c);
        lemma_insert_entry_shape(s[0], sort_entries(s.drop_first()), c);
        assert(sort_nodes(shape_list(s, c)) == insert_node(n0, sort_nodes(rest)));
    }
}

/// Over surviving entries, the node list goes entry by entry.
pub proof fn lemma_shape_list_all(s: Seq<FsEntry>, c: PathConfig)
    requires
        all_candidates(s, c),
    ensures
        shape_list(s, c).len() == s.len(),
        forall|j: int| 0 <= j < s.len() ==> shape_list(s, c)[j] == child_node(#[trigger] s[j], c),
    decreases s.len(),
{
    if s.len() > 0 {
        assert(shape_child(s[0], c) is Some);
        let n0 = child_node(s[0], c);
        let rest = shape_list(s.drop_first(), c);
        assert(shape_list(s, c) =~= seq![n0] + rest);
        assert(all_candidates(s.drop_first(), c)) by {
            assert forall|i: int| 0 <= i < s.drop_first().len() implies shape_child(
                #[trigger] s.drop_first()[i],
                c,
            ) is Some by {
                assert(s.drop_first()[i] == s[i + 1]);
            }
        }
        lemma_shape_list_all(s.drop_first(), c);
        assert forall|j: int| 0 <= j < s.len() implies shape_list(s, c)[j] == child_node(
            #[trigger] s[j],
            c,
        ) by {
            if j > 0 {
                assert(shape_list(s, c)[j] == rest[j - 1]);
                assert(s.drop_first()[j - 1] == s[j]);
            }
        }
    }
}

/// Each entry weighs no more than its whole list.
pub proof fn lemma_entry_size_le_list(s: Seq<FsEntry>, j: int)
    requires
        0 <= j < s.len(),
    ensures
        entry_size(s[j]) <= entry_list_size(s),
    decreases s.len(),
{
    if j == 0 {
    } else {
        lemma_entry_size_le_list(s.drop_first(), j - 1);
        assert(s.drop_first()[j - 1] == s[j]);
    }
}

/// Where the executable insertion lands: before the first entry whose path
/// exceeds the new one.
pub proof fn lemma_insert_entry_at(s: Seq<FsEntry>, x: FsEntry, j: int)
    requires
        0 <= j <= s.len(),
        forall|i: int| 0 <= i < j ==> lex_le(#[trigger] s[i].path_spec(), x.path_spec()),
        j < s.len() ==> !lex_le(s[j].path_spec(), x.path_spec()),
    ensures
        insert_entry(x, s) == s.insert(j, x),
    decreases j,
{
    if j == 0 {
        if s.len() == 0 {
            assert(insert_entry(x, s) =~= s.insert(0, x));
        } else {
            assert(insert_entry(x, s) == seq![x] + s);
            assert(seq![x] + s =~= s.insert(0, x));
        }
    } else {
        assert(lex_le(s[0].path_spec(), x.path_spec()));
        assert forall|i: int| 0 <= i < j - 1 implies lex_le(
            #[trigger] s.drop_first()[i].path_spec(),
            x.path_spec(),
        ) by {
            assert(s.drop_first()[i] == s[i + 1]);
        }
        assert(j - 1 < s.drop_first().len() ==> !lex_le(
            s.drop_first()[j - 1].path_spec(),
            x.path_spec(),
        ));
        lemma_insert_entry_at(s.drop_first(), x, j - 1);
        assert(insert_entry(x, s) == seq![s[0]] + s.drop_first().insert(j - 1, x));
        assert(seq![s[0]] + s.drop_first().insert(j - 1, x) =~= s.insert(j, x));
    }
}

} // verus!
