use vstd::prelude::*;

verus! {

use std::collections::VecDeque;

use vstd::string::StrSliceExecFns;
use vstd::string::StringExecFns;

use crate::cleaning::mark_for_deletion::should_delete_file;
use crate::cleaning::tree_shape::FsEntry;
use crate::cleaning::tree_shape::Node;
use crate::cleaning::tree_shape::all_candidates;
use crate::cleaning::tree_shape::child_node;
use crate::cleaning::tree_shape::entry_list_size;
use crate::cleaning::tree_shape::entry_size;
use crate::cleaning::tree_shape::has_target;
use crate::cleaning::tree_shape::insert_entry;
use crate::cleaning::tree_shape::lemma_counts_le_size_list;
use crate::cleaning::tree_shape::lemma_entry_list_size_push;
use crate::cleaning::tree_shape::lemma_entry_size_le_list;
use crate::cleaning::tree_shape::lemma_entry_size_pos;
use crate::cleaning::tree_shape::lemma_insert_entry_at;
use crate::cleaning::tree_shape::lemma_list_has_target_index;
use crate::cleaning::tree_shape::lemma_marked_le_scanned_list;
use crate::cleaning::tree_shape::lemma_shape_counts_child;
use crate::cleaning::tree_shape::lemma_shape_counts_list;
use crate::cleaning::tree_shape::lemma_shape_list_all;
use crate::cleaning::tree_shape::lemma_shape_list_push;
use crate::cleaning::tree_shape::lemma_sort_entries_shape;
use crate::cleaning::tree_shape::lemma_sort_entries_sizes;
use crate::cleaning::tree_shape::lemma_sort_nodes_sums;
use crate::cleaning::tree_shape::list_has_target;
use crate::cleaning::tree_shape::scanned_child;
use crate::cleaning::tree_shape::scanned_list;
use crate::cleaning::tree_shape::shape_child;
use crate::cleaning::tree_shape::shape_list;
use crate::cleaning::tree_shape::sort_entries;
use crate::cleaning::tree_shape::sort_nodes;
use crate::cleaning::tree_shape::node_dir_count;
use crate::cleaning::tree_shape::node_file_count;
use crate::cleaning::tree_shape::node_leaves;
use crate::cleaning::tree_shape::node_marked_size;
use crate::cleaning::tree_shape::nodes_dir_count;
use crate::cleaning::tree_shape::nodes_file_count;
use crate::cleaning::tree_shape::nodes_leaves;
use crate::cleaning::tree_shape::nodes_marked_size;
use crate::cleaning::tree_shape::walk_dir_count;
use crate::cleaning::tree_shape::walk_file_count;
use crate::cleaning::tree_shape::walk_leaves;
use crate::cleaning::tree_shape::walk_marked_size;
use crate::cleaning::tree_shape::walk_scanned_size;
use crate::configs::config::PathConfig;
use crate::logging::folder_tree_helpers::DirTreeLeaf;
use crate::logging::folder_tree_helpers::LeafView;
use crate::logging::folder_tree_helpers::TreeKey;
use crate::logging::process_directory_tree::leaf_views;
use crate::text::str_le;

/// What the walk accumulates: the bytes of every file it read, the bytes and
/// number of the files it marked, the number of directories it emitted (the
/// root not counted), and the root's modification time in seconds since the
/// Unix epoch, read by the caller before the walk.
pub struct DeletionMetaData {
    pub folder_size: u64,
    pub deletion_size: u64,
    pub file_count: usize,
    pub dir_count: usize,
    pub last_modified_time: u64,
}

impl DeletionMetaData {
    /// Fresh accumulators for one walk of a root folder.
    pub fn from_root_folder(last_modified_time: u64) -> (r: DeletionMetaData)
        ensures
            r.folder_size == 0,
            r.deletion_size == 0,
            r.file_count == 0,
            r.dir_count == 0,
            r.last_modified_time == last_modified_time,
    {
        DeletionMetaData {
            folder_size: 0,
            deletion_size: 0,
            file_count: 0,
            dir_count: 0,
            last_modified_time,
        }
    }
}

/// Combined weight of the entries a work stack still holds.
pub open spec fn ref_stack_size(s: Seq<&FsEntry>) -> nat
    decreases s.len(),
{
    if s.len() == 0 {
        0
    } else {
        entry_size(*s.last()) + ref_stack_size(s.drop_last())
    }
}

/// Whether any entry on the work stack holds a deletion target.
pub open spec fn ref_stack_has_target(s: Seq<&FsEntry>, c: PathConfig) -> bool {
    exists|k: int| 0 <= k < s.len() && has_target(*#[trigger] s[k], c)
}

/// Bytes the walk reads below the entries on the work stack.
pub open spec fn ref_stack_scanned(s: Seq<&FsEntry>, c: PathConfig) -> nat
    decreases s.len(),
{
    if s.len() == 0 {
        0
    } else {
        scanned_child(*s.last(), c) + ref_stack_scanned(s.drop_last(), c)
    }
}

proof fn lemma_ref_stack_target_split(s: Seq<&FsEntry>, c: PathConfig)
    requires
        s.len() > 0,
    ensures
        ref_stack_has_target(s, c) <==> (has_target(*s.last(), c) || ref_stack_has_target(
            s.drop_last(),
            c,
        )),
{
    let t = s.drop_last();
    if has_target(*s.last(), c) {
        assert(0 <= s.len() - 1 < s.len() && has_target(*s[s.len() - 1], c));
    }
    if ref_stack_has_target(t, c) {
        let k = choose|k: int| 0 <= k < t.len() && has_target(*#[trigger] t[k], c);
        assert(s[k] == t[k]);
        assert(has_target(*s[k], c));
    }
    if ref_stack_has_target(s, c) {
        let k = choose|k: int| 0 <= k < s.len() && has_target(*#[trigger] s[k], c);
        if k < s.len() - 1 {
            assert(t[k] == s[k]);
            assert(has_target(*t[k], c));
        }
    }
}

/// Whether any entry of `entries` holds a deletion target, decided with an
/// explicit work stack rather than call recursion.
fn list_contains_target(entries: &Vec<FsEntry>, config: &PathConfig) -> (r: bool)
    ensures
        r == list_has_target(entries@, *config),
{
    proof {
        lemma_list_has_target_index(entries@, *config);
    }
    let mut stack: Vec<&FsEntry> = Vec::new();
    let mut j: usize = 0;
    while j < entries.len()
        invariant
            j <= entries@.len(),
            stack@.len() == j,
            forall|k: int| 0 <= k < j ==> *(#[trigger] stack@[k]) == entries@[k],
        decreases entries@.len() - j,
    {
        stack.push(&entries[j]);
        j = j + 1;
    }
    proof {
        assert(ref_stack_has_target(stack@, *config) == list_has_target(entries@, *config)) by {
            if ref_stack_has_target(stack@, *config) {
                let k = choose|k: int|
                    0 <= k < stack@.len() && has_target(*#[trigger] stack@[k], *config);
                assert(has_target(entries@[k], *config));
            }
            if list_has_target(entries@, *config) {
                let k = choose|k: int|
                    0 <= k < entries@.len() && has_target(#[trigger] entries@[k], *config);
                assert(has_target(*stack@[k], *config));
            }
        }
    }
    while stack.len() > 0
        invariant
            ref_stack_has_target(stack@, *config) == list_has_target(entries@, *config),
        decreases ref_stack_size(stack@),
    {
        let ghost s0 = stack@;
        let e = stack.pop().unwrap();
        proof {
            assert(stack@ =~= s0.drop_last());
            assert(s0.last() == e);
            lemma_entry_size_pos(*e);
            lemma_ref_stack_target_split(s0, *config);
        }
        match e {
            FsEntry::File { path, .. } => {
                if should_delete_file(path.as_str(), config) {
                    assert(has_target(*e, *config));
                    return true;
                }
                assert(!has_target(*e, *config));
            },
            FsEntry::Dir { entries: sub, .. } => {
                if config.recursive {
                    proof {
                        lemma_list_has_target_index(sub@, *config);
                    }
                    let ghost base = stack@;
                    let mut j2: usize = 0;
                    while j2 < sub.len()
                        invariant
                            j2 <= sub@.len(),
                            stack@.len() == base.len() + j2,
                            forall|k: int| 0 <= k < base.len() ==> stack@[k] == base[k],
                            forall|k: int|
                                base.len() <= k < stack@.len() ==> *(#[trigger] stack@[k])
                                    == sub@[k - base.len()],
                            ref_stack_size(stack@) == ref_stack_size(base) + entry_list_size(
                                sub@.take(j2 as int),
                            ),
                        decreases sub@.len() - j2,
                    {
                        let ghost st0 = stack@;
                        stack.push(&sub[j2]);
                        proof {
                            assert(stack@.last() == &sub[j2 as int]);
                            assert(stack@.drop_last() =~= st0);
                            assert(sub@.take(j2 + 1) =~= sub@.take(j2 as int).push(
                                sub@[j2 as int],
                            ));
                            lemma_entry_list_size_push(sub@.take(j2 as int), sub@[j2 as int]);
                        }
                        j2 = j2 + 1;
                    }
                    proof {
                        assert(sub@.take(sub@.len() as int) =~= sub@);
                        assert(ref_stack_has_target(stack@, *config) == (list_has_target(
                            sub@,
                            *config,
                        ) || ref_stack_has_target(base, *config))) by {
                            if ref_stack_has_target(stack@, *config) {
                                let k = choose|k: int|
                                    0 <= k < stack@.len() && has_target(
                                        *#[trigger] stack@[k],
                                        *config,
                                    );
                                if k < base.len() {
                                    assert(has_target(*base[k], *config));
                                } else {
                                    assert(has_target(sub@[k - base.len()], *config));
                                }
                            }
                            if list_has_target(sub@, *config) {
                                let k = choose|k: int|
                                    0 <= k < sub@.len() && has_target(
                                        #[trigger] sub@[k],
                                        *config,
                                    );
                                assert(has_target(*stack@[base.len() + k], *config));
                            }
                            if ref_stack_has_target(base, *config) {
                                let k = choose|k: int|
                                    0 <= k < base.len() && has_target(
                                        *#[trigger] base[k],
                                        *config,
                                    );
                                assert(has_target(*stack@[k], *config));
                            }
                        }
                        assert(has_target(*e, *config) == list_has_target(sub@, *config));
                    }
                } else {
                    assert(!has_target(*e, *config));
                }
            },
        }
    }
    proof {
        assert(!ref_stack_has_target(stack@, *config));
    }
    false
}

/// Whether one child entry survives the walk.
fn entry_is_candidate(e: &FsEntry, config: &PathConfig) -> (r: bool)
    ensures
        r == (shape_child(*e, *config) is Some),
{
    proof {
        lemma_shape_counts_child(*e, *config);
    }
    match e {
        FsEntry::File { path, .. } => should_delete_file(path.as_str(), config),
        FsEntry::Dir { entries, .. } => config.recursive && list_contains_target(entries, config),
    }
}

/// Inserts an entry into a path-sorted vector, keeping it sorted.
fn insert_folder_entry(sorted: &mut Vec<FsEntry>, x: FsEntry)
    ensures
        final(sorted)@ == insert_entry(x, old(sorted)@),
{
    let mut j: usize = 0;
    while j < sorted.len() && str_le(sorted[j].path(), x.path())
        invariant
            j <= sorted@.len(),
            sorted@ == old(sorted)@,
            forall|i: int|
                0 <= i < j ==> crate::text::lex_le(
                    (#[trigger] sorted@[i]).path_spec(),
                    x.path_spec(),
                ),
        decreases sorted@.len() - j,
    {
        j = j + 1;
    }
    proof {
        lemma_insert_entry_at(sorted@, x, j as int);
    }
    sorted.insert(j, x);
}

/// Sorts a directory's surviving entries by path.
fn sort_folder_entries(entries: Vec<FsEntry>) -> (r: Vec<FsEntry>)
    ensures
        r@ == sort_entries(entries@),
{
    let ghost orig = entries@;
    let mut rest = entries;
    let mut sorted: Vec<FsEntry> = Vec::new();
    proof {
        assert(orig.skip(orig.len() as int) =~= Seq::<FsEntry>::empty());
    }
    while rest.len() > 0
        invariant
            rest@.len() <= orig.len(),
            rest@ == orig.take(rest@.len() as int),
            sorted@ == sort_entries(orig.skip(rest@.len() as int)),
        decreases rest@.len(),
    {
        let ghost k = rest@.len() as int;
        let x = rest.pop().unwrap();
        proof {
            assert(rest@ =~= orig.take(k - 1));
            assert(x == orig[k - 1]);
            assert(orig.skip(k - 1)[0] == orig[k - 1]);
            assert(orig.skip(k - 1).drop_first() =~= orig.skip(k));
        }
        insert_folder_entry(&mut sorted, x);
        proof {
            assert(sort_entries(orig.skip(k - 1)) == insert_entry(
                orig[k - 1],
                sort_entries(orig.skip(k)),
            ));
        }
    }
    proof {
        assert(orig.skip(0) =~= orig);
        assert(orig.take(0) =~= Seq::<FsEntry>::empty());
    }
    sorted
}

/// Scans one directory's entries, keeping the surviving children and putting
/// them in lexicographic path order: eligible files, and, when the walk
/// recurses, directories that hold a deletion target.
pub fn scan_folder_contents(entries: Vec<FsEntry>, config: &PathConfig) -> (r: Vec<FsEntry>)
    ensures
        all_candidates(r@, *config),
        shape_list(r@, *config) == sort_nodes(shape_list(entries@, *config)),
        entry_list_size(r@) <= entry_list_size(entries@),
        r@.len() == shape_list(entries@, *config).len(),
{
    let ghost orig = entries@;
    let mut rest = entries;
    let mut directory_contents: Vec<FsEntry> = Vec::new();
    let ghost mut i: int = 0;
    proof {
        assert(orig.take(0) =~= Seq::<FsEntry>::empty());
        assert(shape_list(orig.take(0), *config) =~= Seq::<Node>::empty());
        assert(shape_list(directory_contents@, *config) =~= Seq::<Node>::empty());
    }
    while rest.len() > 0
        invariant
            0 <= i <= orig.len(),
            rest@ == orig.skip(i),
            all_candidates(directory_contents@, *config),
            shape_list(directory_contents@, *config) == shape_list(orig.take(i), *config),
            entry_list_size(directory_contents@) <= entry_list_size(orig.take(i)),
        decreases rest@.len(),
    {
        let ghost r0 = rest@;
        let ghost d0 = directory_contents@;
        let entry = rest.remove(0);
        proof {
            assert(rest@ =~= r0.drop_first());
            assert(entry == orig[i]);
            assert(rest@ =~= orig.skip(i + 1));
            assert(orig.take(i + 1) =~= orig.take(i).push(orig[i]));
            lemma_shape_list_push(orig.take(i), orig[i], *config);
            lemma_entry_list_size_push(orig.take(i), orig[i]);
            lemma_entry_size_pos(orig[i]);
        }
        if entry_is_candidate(&entry, config) {
            directory_contents.push(entry);
            proof {
                assert(directory_contents@ =~= d0.push(orig[i]));
                lemma_shape_list_push(d0, orig[i], *config);
                lemma_entry_list_size_push(d0, orig[i]);
                assert(all_candidates(directory_contents@, *config)) by {
                    assert forall|k: int| 0 <= k < directory_contents@.len() implies shape_child(
                        #[trigger] directory_contents@[k],
                        *config,
                    ) is Some by {
                        if k < d0.len() {
                            assert(directory_contents@[k] == d0[k]);
                        } else {
                            assert(directory_contents@[k] == orig[i]);
                        }
                    }
                }
            }
        } else {
            proof {
                assert(shape_list(orig.take(i + 1), *config) =~= shape_list(
                    orig.take(i),
                    *config,
                ));
            }
        }
        proof {
            i = i + 1;
        }
    }
    proof {
        assert(orig.take(i) =~= orig);
        lemma_sort_entries_shape(directory_contents@, *config);
        lemma_sort_entries_sizes(directory_contents@);
        lemma_shape_list_all(directory_contents@, *config);
        lemma_sort_nodes_sums(shape_list(directory_contents@, *config));
        lemma_sort_nodes_sums(shape_list(orig, *config));
    }
    let r = sort_folder_entries(directory_contents);
    proof {
        lemma_shape_list_all(r@, *config);
    }
    r
}

/// Adds up the sizes of every file the walk reads: all files below the given
/// entries when the walk recurses, only the direct files otherwise.
fn total_scanned(entries: &Vec<FsEntry>, config: &PathConfig) -> (r: u64)
    requires
        scanned_list(entries@, *config) <= u64::MAX,
    ensures
        r as nat == scanned_list(entries@, *config),
{
    let mut stack: Vec<&FsEntry> = Vec::new();
    let mut j: usize = 0;
    proof {
        assert(entries@.take(0) =~= Seq::<FsEntry>::empty());
    }
    while j < entries.len()
        invariant
            j <= entries@.len(),
            stack@.len() == j,
            forall|k: int| 0 <= k < j ==> *(#[trigger] stack@[k]) == entries@[k],
            ref_stack_scanned(stack@, *config) == scanned_list(entries@.take(j as int), *config),
            ref_stack_size(stack@) == entry_list_size(entries@.take(j as int)),
        decreases entries@.len() - j,
    {
        let ghost st0 = stack@;
        stack.push(&entries[j]);
        proof {
            assert(stack@.last() == &entries[j as int]);
            assert(stack@.drop_last() =~= st0);
            assert(entries@.take(j + 1) =~= entries@.take(j as int).push(entries@[j as int]));
            lemma_entry_list_size_push(entries@.take(j as int), entries@[j as int]);
            lemma_scanned_list_push(entries@.take(j as int), entries@[j as int], *config);
        }
        j = j + 1;
    }
    proof {
        assert(entries@.take(entries@.len() as int) =~= entries@);
    }
    let mut total: u64 = 0;
    while stack.len() > 0
        invariant
            total as nat + ref_stack_scanned(stack@, *config) == scanned_list(entries@, *config),
            scanned_list(entries@, *config) <= u64::MAX,
        decreases ref_stack_size(stack@),
    {
        let ghost s0 = stack@;
        let e = stack.pop().unwrap();
        proof {
            assert(stack@ =~= s0.drop_last());
            assert(s0.last() == e);
            lemma_entry_size_pos(*e);
        }
        match e {
            FsEntry::File { size, .. } => {
                total = total + *size;
            },
            FsEntry::Dir { entries: sub, .. } => {
                if config.recursive {
                    let ghost base = stack@;
                    let mut j2: usize = 0;
                    proof {
                        assert(sub@.take(0) =~= Seq::<FsEntry>::empty());
                    }
                    while j2 < sub.len()
                        invariant
                            j2 <= sub@.len(),
                            stack@.len() == base.len() + j2,
                            forall|k: int| 0 <= k < base.len() ==> stack@[k] == base[k],
                            ref_stack_scanned(stack@, *config) == ref_stack_scanned(base, *config)
                                + scanned_list(sub@.take(j2 as int), *config),
                            ref_stack_size(stack@) == ref_stack_size(base) + entry_list_size(
                                sub@.take(j2 as int),
                            ),
                        decreases sub@.len() - j2,
                    {
                        let ghost st0 = stack@;
                        stack.push(&sub[j2]);
                        proof {
                            assert(stack@.last() == &sub[j2 as int]);
                            assert(stack@.drop_last() =~= st0);
                            assert(sub@.take(j2 + 1) =~= sub@.take(j2 as int).push(
                                sub@[j2 as int],
                            ));
                            lemma_entry_list_size_push(sub@.take(j2 as int), sub@[j2 as int]);
                            lemma_scanned_list_push(sub@.take(j2 as int), sub@[j2 as int], *config);
                        }
                        j2 = j2 + 1;
                    }
                    proof {
                        assert(sub@.take(sub@.len() as int) =~= sub@);
                    }
                }
            },
        }
    }
    total
}

/// Builds the output leaves for one directory's surviving children, already
/// sorted: each child at the given depth, the final one closing its group.
pub fn create_tree_leaves_from_paths(entries: &Vec<FsEntry>, depth: usize) -> (r: VecDeque<
    DirTreeLeaf,
>)
    ensures
        r@.len() == entries@.len(),
        forall|i: int|
            0 <= i < r@.len() ==> (#[trigger] r@[i])@ == (LeafView {
                key: entries@[i].path_spec(),
                is_file: entries@[i].is_file_spec(),
                depth: depth as nat,
                is_last: i == entries@.len() - 1,
            }),
{
    let mut path_leaves: VecDeque<DirTreeLeaf> = VecDeque::new();
    let paths_len = entries.len();
    let mut index: usize = 0;
    while index < paths_len
        invariant
            index <= paths_len,
            paths_len == entries@.len(),
            path_leaves@.len() == index,
            forall|i: int|
                0 <= i < index ==> (#[trigger] path_leaves@[i])@ == (LeafView {
                    key: entries@[i].path_spec(),
                    is_file: entries@[i].is_file_spec(),
                    depth: depth as nat,
                    is_last: i == entries@.len() - 1,
                }),
        decreases paths_len - index,
    {
        let e = &entries[index];
        let is_file = match e {
            FsEntry::File { .. } => true,
            FsEntry::Dir { .. } => false,
        };
        let key_path = e.path().to_owned();
        let file_leaf = DirTreeLeaf {
            key: TreeKey::PathKey { path: key_path, is_file },
            depth,
            is_last: index == paths_len - 1,
        };
        path_leaves.push_back(file_leaf);
        index = index + 1;
    }
    path_leaves
}

/// One pending unit of the walk's work stack: a subtree that still has to be
/// emitted, with the depth and sibling position its root leaf will carry.
struct PendingUnit {
    entry: FsEntry,
    depth: usize,
    is_last: bool,
}

/// The leaves a pending unit will contribute: a file is emitted as a single
/// leaf; a directory is emitted with its surviving subtree, or not at all.
spec fn unit_leaves(u: PendingUnit, c: PathConfig) -> Seq<LeafView> {
    match u.entry {
        FsEntry::File { path, .. } => seq![
            LeafView { key: path@, is_file: true, depth: u.depth as nat, is_last: u.is_last },
        ],
        FsEntry::Dir { path, entries } => {
            let cs = sort_nodes(shape_list(entries@, c));
            if cs.len() == 0 {
                Seq::empty()
            } else {
                node_leaves(
                    Node { path: path@, is_file: false, size: 0, children: cs },
                    u.depth as nat,
                    u.is_last,
                )
            }
        },
    }
}

spec fn units_leaves(s: Seq<PendingUnit>, c: PathConfig) -> Seq<LeafView>
    decreases s.len(),
{
    if s.len() == 0 {
        Seq::empty()
    } else {
        unit_leaves(s.last(), c) + units_leaves(s.drop_last(), c)
    }
}

spec fn unit_marked(u: PendingUnit, c: PathConfig) -> nat {
    match u.entry {
        FsEntry::File { size, .. } => size as nat,
        FsEntry::Dir { entries, .. } => nodes_marked_size(sort_nodes(shape_list(entries@, c))),
    }
}

spec fn units_marked(s: Seq<PendingUnit>, c: PathConfig) -> nat
    decreases s.len(),
{
    if s.len() == 0 {
        0
    } else {
        unit_marked(s.last(), c) + units_marked(s.drop_last(), c)
    }
}

spec fn unit_files(u: PendingUnit, c: PathConfig) -> nat {
    match u.entry {
        FsEntry::File { .. } => 1,
        FsEntry::Dir { entries, .. } => nodes_file_count(sort_nodes(shape_list(entries@, c))),
    }
}

spec fn units_files(s: Seq<PendingUnit>, c: PathConfig) -> nat
    decreases s.len(),
{
    if s.len() == 0 {
        0
    } else {
        unit_files(s.last(), c) + units_files(s.drop_last(), c)
    }
}

spec fn unit_dirs(u: PendingUnit, c: PathConfig) -> nat {
    match u.entry {
        FsEntry::File { .. } => 0,
        FsEntry::Dir { entries, .. } => {
            let cs = sort_nodes(shape_list(entries@, c));
            if cs.len() == 0 {
                0
            } else if u.depth == 0 {
                nodes_dir_count(cs)
            } else {
                1 + nodes_dir_count(cs)
            }
        },
    }
}

spec fn units_dirs(s: Seq<PendingUnit>, c: PathConfig) -> nat
    decreases s.len(),
{
    if s.len() == 0 {
        0
    } else {
        unit_dirs(s.last(), c) + units_dirs(s.drop_last(), c)
    }
}

spec fn units_size(s: Seq<PendingUnit>) -> nat
    decreases s.len(),
{
    if s.len() == 0 {
        0
    } else {
        entry_size(s.last().entry) + units_size(s.drop_last())
    }
}

/// Depths stay small enough for the walk to step one level deeper.
spec fn units_depth_ok(s: Seq<PendingUnit>, bound: nat) -> bool {
    forall|k: int|
        0 <= k < s.len() ==> (#[trigger] s[k]).depth + entry_size(s[k].entry) <= bound
}

/// A surviving entry's pending unit contributes exactly its node's leaves
/// and sums.
proof fn lemma_unit_matches_node(e: FsEntry, depth: usize, is_last: bool, c: PathConfig)
    requires
        shape_child(e, c) is Some,
    ensures
        unit_leaves(PendingUnit { entry: e, depth, is_last }, c) == node_leaves(
            child_node(e, c),
            depth as nat,
            is_last,
        ),
        unit_marked(PendingUnit { entry: e, depth, is_last }, c) == node_marked_size(
            child_node(e, c),
        ),
        unit_files(PendingUnit { entry: e, depth, is_last }, c) == node_file_count(
            child_node(e, c),
        ),
        depth > 0 ==> unit_dirs(PendingUnit { entry: e, depth, is_last }, c) == node_dir_count(
            child_node(e, c),
        ),
{
    let u = PendingUnit { entry: e, depth, is_last };
    let n = child_node(e, c);
    match e {
        FsEntry::File { path, size } => {
            assert(n == Node {
                path: path@,
                is_file: true,
                size: size as nat,
                children: Seq::<Node>::empty(),
            });
            assert(nodes_leaves(n.children, depth as nat + 1) =~= Seq::<LeafView>::empty());
            assert(node_leaves(n, depth as nat, is_last) =~= seq![
                LeafView { key: path@, is_file: true, depth: depth as nat, is_last },
            ]);
            assert(nodes_marked_size(n.children) == 0);
            assert(nodes_file_count(n.children) == 0);
            assert(nodes_dir_count(n.children) == 0);
        },
        FsEntry::Dir { path, entries } => {
            let cs = sort_nodes(shape_list(entries@, c));
            assert(c.recursive && cs.len() > 0);
            assert(n == Node { path: path@, is_file: false, size: 0, children: cs });
        },
    }
}

/// Taking the node at position `j` off the front of the remaining block.
proof fn lemma_nodes_skip_unfold(cs: Seq<Node>, d: nat, j: int)
    requires
        0 <= j < cs.len(),
    ensures
        nodes_leaves(cs.skip(j), d) == node_leaves(cs[j], d, j == cs.len() - 1) + nodes_leaves(
            cs.skip(j + 1),
            d,
        ),
        nodes_marked_size(cs.skip(j)) == node_marked_size(cs[j]) + nodes_marked_size(
            cs.skip(j + 1),
        ),
        nodes_file_count(cs.skip(j)) == node_file_count(cs[j]) + nodes_file_count(cs.skip(j + 1)),
        nodes_dir_count(cs.skip(j)) == node_dir_count(cs[j]) + nodes_dir_count(cs.skip(j + 1)),
{
    assert(cs.skip(j)[0] == cs[j]);
    assert(cs.skip(j).drop_first() =~= cs.skip(j + 1));
    assert((cs.skip(j).len() == 1) == (j == cs.len() - 1));
}

/// Pushes one directory's surviving children onto the work stack, deepest
/// position first, so the first child in path order is popped next and the
/// final child carries the last-sibling flag.
#[verifier::rlimit(100)]
#[verifier::spinoff_prover]
fn push_child_units(
    stack: &mut Vec<PendingUnit>,
    candidates: Vec<FsEntry>,
    child_depth: usize,
    config: &PathConfig,
    Ghost(bound): Ghost<nat>,
)
    requires
        child_depth >= 1,
        all_candidates(candidates@, *config),
        child_depth + entry_list_size(candidates@) <= bound,
        units_depth_ok(old(stack)@, bound),
    ensures
        units_leaves(final(stack)@, *config) == nodes_leaves(
            shape_list(candidates@, *config),
            child_depth as nat,
        ) + units_leaves(old(stack)@, *config),
        units_marked(final(stack)@, *config) == nodes_marked_size(
            shape_list(candidates@, *config),
        ) + units_marked(old(stack)@, *config),
        units_files(final(stack)@, *config) == nodes_file_count(shape_list(candidates@, *config))
            + units_files(old(stack)@, *config),
        units_dirs(final(stack)@, *config) == nodes_dir_count(shape_list(candidates@, *config))
            + units_dirs(old(stack)@, *config),
        units_size(final(stack)@) == entry_list_size(candidates@) + units_size(old(stack)@),
        units_depth_ok(final(stack)@, bound),
{
    let ghost c = *config;
    let ghost candall = candidates@;
    let ghost cs = shape_list(candidates@, c);
    let ghost base = stack@;
    proof {
        lemma_shape_list_all(candall, c);
        assert(cs.skip(cs.len() as int) =~= Seq::<Node>::empty());
        assert(candall.skip(candall.len() as int) =~= Seq::<FsEntry>::empty());
    }
    let mut cand = candidates;
    let mut is_last_child = true;
    proof {
        assert(cand@ =~= candall.take(cand@.len() as int));
    }
    while cand.len() > 0
        invariant
            cand@.len() <= candall.len(),
            candall.len() == cs.len(),
            shape_list(candall, c) == cs,
            all_candidates(candall, c),
            forall|j: int|
                0 <= j < candall.len() ==> shape_list(candall, c)[j] == child_node(
                    #[trigger] candall[j],
                    c,
                ),
            cand@ == candall.take(cand@.len() as int),
            is_last_child == (cand@.len() == candall.len()),
            child_depth >= 1,
            child_depth + entry_list_size(candall) <= bound,
            units_leaves(stack@, c) == nodes_leaves(
                cs.skip(cand@.len() as int),
                child_depth as nat,
            ) + units_leaves(base, c),
            units_marked(stack@, c) == nodes_marked_size(cs.skip(cand@.len() as int))
                + units_marked(base, c),
            units_files(stack@, c) == nodes_file_count(cs.skip(cand@.len() as int)) + units_files(
                base,
                c,
            ),
            units_dirs(stack@, c) == nodes_dir_count(cs.skip(cand@.len() as int)) + units_dirs(
                base,
                c,
            ),
            units_size(stack@) == entry_list_size(candall.skip(cand@.len() as int)) + units_size(
                base,
            ),
            units_depth_ok(stack@, bound),
        decreases cand@.len(),
    {
        let ghost k = cand@.len() as int;
        let l = is_last_child;
        let x = cand.pop().unwrap();
        proof {
            assert(cand@ =~= candall.take(k - 1));
            assert(x == candall[k - 1]);
            assert(shape_list(candall, c)[k - 1] == child_node(candall[k - 1], c));
            assert(cs[k - 1] == child_node(x, c));
            lemma_nodes_skip_unfold(cs, child_depth as nat, k - 1);
            assert(candall.skip(k - 1)[0] == candall[k - 1]);
            assert(candall.skip(k - 1).drop_first() =~= candall.skip(k));
            assert(entry_list_size(candall.skip(k - 1)) == entry_size(x) + entry_list_size(
                candall.skip(k),
            ));
            lemma_unit_matches_node(x, child_depth, l, c);
            lemma_entry_size_le_list(candall, k - 1);
            assert(entry_size(x) <= entry_list_size(candall));
        }
        let unit = PendingUnit { entry: x, depth: child_depth, is_last: l };
        let ghost st0 = stack@;
        stack.push(unit);
        proof {
            assert(stack@.last() == unit);
            assert(stack@.drop_last() =~= st0);
            assert(units_leaves(stack@, c) == unit_leaves(unit, c) + units_leaves(st0, c));
            assert(units_marked(stack@, c) == unit_marked(unit, c) + units_marked(st0, c));
            assert(units_files(stack@, c) == unit_files(unit, c) + units_files(st0, c));
            assert(units_dirs(stack@, c) == unit_dirs(unit, c) + units_dirs(st0, c));
            assert(units_size(stack@) == entry_size(x) + units_size(st0));
            assert(unit_leaves(unit, c) == node_leaves(
                cs[k - 1],
                child_depth as nat,
                k - 1 == cs.len() - 1,
            ));
            assert(units_leaves(stack@, c) =~= nodes_leaves(cs.skip(k - 1), child_depth as nat)
                + units_leaves(base, c));
            assert(units_depth_ok(stack@, bound)) by {
                assert forall|m: int| 0 <= m < stack@.len() implies (#[trigger] stack@[m]).depth
                    + entry_size(stack@[m].entry) <= bound by {
                    if m < st0.len() {
                        assert(stack@[m] == st0[m]);
                    } else {
                        assert(stack@[m] == unit);
                    }
                }
            }
        }
        is_last_child = false;
    }
    proof {
        assert(cs.skip(0) =~= cs);
        assert(candall.skip(0) =~= candall);
    }
}

/// Walks a snapshot of the root folder, collecting, in pre-order, the leaves
/// of every file marked for deletion and of every directory that holds one,
/// together with the accumulated metadata. Siblings appear in lexicographic
/// path order, the final one flagged as last; a directory with no marked
/// file anywhere below it is pruned. A root that is itself a file becomes a
/// single leaf and leaves the counters untouched.
pub fn track_files_for_deletion(root: FsEntry, config: &PathConfig, last_modified_time: u64) -> (r:
    (VecDeque<DirTreeLeaf>, DeletionMetaData))
    requires
        walk_scanned_size(root, *config) <= u64::MAX,
        entry_size(root) <= usize::MAX,
    ensures
        leaf_views(r.0@) == walk_leaves(root, *config),
        r.1.folder_size == walk_scanned_size(root, *config),
        r.1.deletion_size == walk_marked_size(root, *config),
        r.1.file_count == walk_file_count(root, *config),
        r.1.dir_count == walk_dir_count(root, *config),
        r.1.last_modified_time == last_modified_time,
{
    find_deletion_targets(root, config, last_modified_time)
}

#[verifier::rlimit(100)]
fn find_deletion_targets(root: FsEntry, config: &PathConfig, last_modified_time: u64) -> (r: (
    VecDeque<DirTreeLeaf>,
    DeletionMetaData,
))
    requires
        walk_scanned_size(root, *config) <= u64::MAX,
        entry_size(root) <= usize::MAX,
    ensures
        leaf_views(r.0@) == walk_leaves(root, *config),
        r.1.folder_size == walk_scanned_size(root, *config),
        r.1.deletion_size == walk_marked_size(root, *config),
        r.1.file_count == walk_file_count(root, *config),
        r.1.dir_count == walk_dir_count(root, *config),
        r.1.last_modified_time == last_modified_time,
{
    let ghost groot = root;
    let ghost c = *config;
    let mut deletion_metadata = DeletionMetaData::from_root_folder(last_modified_time);
    let mut processed_leaves: VecDeque<DirTreeLeaf> = VecDeque::new();
    match root {
        FsEntry::File { path, size } => {
            let root_leaf = DirTreeLeaf {
                key: TreeKey::PathKey { path, is_file: true },
                depth: 0,
                is_last: true,
            };
            processed_leaves.push_back(root_leaf);
            proof {
                assert(leaf_views(processed_leaves@) =~= walk_leaves(groot, c));
            }
            (processed_leaves, deletion_metadata)
        },
        FsEntry::Dir { path, entries } => {
            deletion_metadata.folder_size = total_scanned(&entries, config);
            let ghost ges = entries@;
            proof {
                lemma_shape_counts_list(ges, c);
                lemma_sort_nodes_sums(shape_list(ges, c));
                lemma_marked_le_scanned_list(ges, c);
                lemma_counts_le_size_list(ges, c);
            }
            let ghost tm: nat = walk_marked_size(groot, c);
            let ghost tf: nat = walk_file_count(groot, c);
            let ghost td: nat = walk_dir_count(groot, c);
            proof {
                assert(entry_size(groot) == 1 + entry_list_size(ges));
                assert(tm <= u64::MAX);
                assert(tf <= usize::MAX);
                assert(td <= usize::MAX);
            }
            let mut stack: Vec<PendingUnit> = Vec::new();
            let root_unit = PendingUnit {
                entry: FsEntry::Dir { path, entries },
                depth: 0,
                is_last: true,
            };
            proof {
                assert(root_unit.entry == groot);
            }
            stack.push(root_unit);
            proof {
                assert(stack@.last() == root_unit);
                assert(stack@.drop_last() =~= Seq::<PendingUnit>::empty());
                let cs0 = sort_nodes(shape_list(ges, c));
                assert(units_leaves(Seq::<PendingUnit>::empty(), c) =~= Seq::<LeafView>::empty());
                assert(units_marked(Seq::<PendingUnit>::empty(), c) == 0);
                assert(units_files(Seq::<PendingUnit>::empty(), c) == 0);
                assert(units_dirs(Seq::<PendingUnit>::empty(), c) == 0);
                assert(unit_leaves(root_unit, c) == walk_leaves(groot, c));
                assert(units_leaves(stack@, c) =~= unit_leaves(root_unit, c));
                assert(unit_marked(root_unit, c) == tm);
                assert(units_marked(stack@, c) == tm);
                assert(unit_files(root_unit, c) == tf);
                assert(units_files(stack@, c) == tf);
                assert(unit_dirs(root_unit, c) == td) by {
                    if cs0.len() == 0 {
                        assert(nodes_dir_count(shape_list(ges, c)) == 0);
                    }
                }
                assert(units_dirs(stack@, c) == td);
                assert(leaf_views(processed_leaves@) =~= Seq::<LeafView>::empty());
                assert(units_depth_ok(stack@, entry_size(groot))) by {
                    assert(stack@[0] == root_unit);
                }
            }
            while stack.len() > 0
                invariant
                    leaf_views(processed_leaves@) + units_leaves(stack@, c) == walk_leaves(
                        groot,
                        c,
                    ),
                    deletion_metadata.deletion_size as nat + units_marked(stack@, c) == tm,
                    deletion_metadata.file_count as nat + units_files(stack@, c) == tf,
                    deletion_metadata.dir_count as nat + units_dirs(stack@, c) == td,
                    tm <= u64::MAX,
                    tf <= usize::MAX,
                    td <= usize::MAX,
                    units_depth_ok(stack@, entry_size(groot)),
                    deletion_metadata.folder_size == walk_scanned_size(groot, c),
                    deletion_metadata.last_modified_time == last_modified_time,
                decreases units_size(stack@),
            {
                let ghost s0 = stack@;
                let u = stack.pop().unwrap();
                let depth = u.depth;
                let is_last = u.is_last;
                proof {
                    assert(stack@ =~= s0.drop_last());
                    assert(s0.last() == u);
                    assert(units_leaves(s0, c) == unit_leaves(u, c) + units_leaves(stack@, c));
                    assert(units_marked(s0, c) == unit_marked(u, c) + units_marked(stack@, c));
                    assert(units_files(s0, c) == unit_files(u, c) + units_files(stack@, c));
                    assert(units_dirs(s0, c) == unit_dirs(u, c) + units_dirs(stack@, c));
                    assert(units_size(s0) == entry_size(u.entry) + units_size(stack@));
                    lemma_entry_size_pos(u.entry);
                    assert(s0[s0.len() - 1] == u);
                    assert(u.depth + entry_size(u.entry) <= entry_size(groot));
                }
                match u.entry {
                    FsEntry::File { path, size } => {
                        let ghost lp = processed_leaves@;
                        let file_leaf = DirTreeLeaf {
                            key: TreeKey::PathKey { path, is_file: true },
                            depth,
                            is_last,
                        };
                        proof {
                            assert(unit_leaves(u, c) =~= seq![file_leaf@]);
                        }
                        processed_leaves.push_back(file_leaf);
                        proof {
                            assert(leaf_views(processed_leaves@) =~= leaf_views(lp).push(
                                file_leaf@,
                            ));
                            assert(leaf_views(processed_leaves@) + units_leaves(stack@, c)
                                =~= leaf_views(lp) + units_leaves(s0, c));
                            assert(unit_marked(u, c) == size as nat);
                            assert(unit_files(u, c) == 1);
                            assert(unit_dirs(u, c) == 0);
                        }
                        deletion_metadata.deletion_size = deletion_metadata.deletion_size + size;
                        deletion_metadata.file_count = deletion_metadata.file_count + 1;
                    },
                    FsEntry::Dir { path, entries } => {
                        let ghost sub = entries@;
                        let ghost cs = sort_nodes(shape_list(sub, c));
                        proof {
                            lemma_shape_counts_list(sub, c);
                            lemma_sort_nodes_sums(shape_list(sub, c));
                            assert(entry_size(u.entry) == 1 + entry_list_size(sub));
                        }
                        let candidates = scan_folder_contents(entries, config);
                        proof {
                            lemma_shape_list_all(candidates@, c);
                        }
                        if candidates.len() == 0 {
                            proof {
                                assert(cs.len() == 0);
                                assert(unit_leaves(u, c) =~= Seq::<LeafView>::empty());
                                assert(leaf_views(processed_leaves@) + units_leaves(stack@, c)
                                    =~= leaf_views(processed_leaves@) + units_leaves(s0, c));
                                assert(unit_marked(u, c) == 0);
                                assert(unit_files(u, c) == 0);
                                assert(unit_dirs(u, c) == 0);
                            }
                            continue;
                        }
                        let ghost lp = processed_leaves@;
                        let dir_leaf = DirTreeLeaf {
                            key: TreeKey::PathKey { path, is_file: false },
                            depth,
                            is_last,
                        };
                        let ghost head = dir_leaf@;
                        processed_leaves.push_back(dir_leaf);
                        proof {
                            assert(leaf_views(processed_leaves@) =~= leaf_views(lp).push(head));
                        }
                        if depth > 0 {
                            proof {
                                assert(unit_dirs(u, c) == 1 + nodes_dir_count(cs));
                            }
                            deletion_metadata.dir_count = deletion_metadata.dir_count + 1;
                        }
                        proof {
                            assert(shape_list(candidates@, c) == cs);
                            assert(depth + 1 + entry_list_size(candidates@) <= entry_size(
                                groot,
                            ));
                        }
                        let ghost base = stack@;
                        push_child_units(
                            &mut stack,
                            candidates,
                            depth + 1,
                            config,
                            Ghost(entry_size(groot)),
                        );
                        proof {
                            assert(unit_leaves(u, c) == seq![head] + nodes_leaves(
                                cs,
                                (depth + 1) as nat,
                            ));
                            assert(leaf_views(processed_leaves@) + units_leaves(stack@, c)
                                =~= leaf_views(lp) + units_leaves(s0, c));
                            assert(unit_marked(u, c) == nodes_marked_size(cs));
                            assert(unit_files(u, c) == nodes_file_count(cs));
                            assert(units_size(stack@) <= entry_list_size(sub) + units_size(base));
                        }
                    },
                }
            }
            proof {
                assert(units_leaves(stack@, c) =~= Seq::<LeafView>::empty());
                assert(leaf_views(processed_leaves@) + units_leaves(stack@, c) =~= leaf_views(
                    processed_leaves@,
                ));
                assert(units_marked(stack@, c) == 0);
                assert(units_files(stack@, c) == 0);
                assert(units_dirs(stack@, c) == 0);
            }
            (processed_leaves, deletion_metadata)
        },
    }
}

proof fn lemma_scanned_list_push(es: Seq<FsEntry>, x: FsEntry, c: PathConfig)
    ensures
        scanned_list(es.push(x), c) == scanned_list(es, c) + scanned_child(x, c),
    decreases es.len(),
{
    if es.len() == 0 {
        assert(es.push(x)[0] == x);
        assert(es.push(x).drop_first() =~= Seq::<FsEntry>::empty());
        assert(scanned_list(Seq::<FsEntry>::empty(), c) == 0);
        assert(scanned_list(es.push(x), c) == scanned_child(x, c) + scanned_list(
            es.push(x).drop_first(),
            c,
        ));
    } else {
        assert(es.push(x)[0] == es[0]);
        assert(es.push(x).drop_first() =~= es.drop_first().push(x));
        lemma_scanned_list_push(es.drop_first(), x, c);
    }
}

} // verus!
