use vstd::prelude::*;

verus! {

use vstd::string::StrSliceExecFns;
use vstd::string::StringExecFns;

use crate::utils::format_size;
use crate::utils::format_size_spec;

/// One tree entry as the contracts see it: its display text, whether it
/// stands for a file, its depth below the root, and whether it closes its
/// group of siblings.
pub struct LeafView {
    pub key: Seq<char>,
    pub is_file: bool,
    pub depth: nat,
    pub is_last: bool,
}

/// What identifies a tree entry: a filesystem path recorded by a live walk,
/// or a bare display name for sequences built by hand.
pub enum TreeKey {
    PathKey { path: String, is_file: bool },
    StringKey(String),
}

impl TreeKey {
    /// The text shown for this key.
    pub open spec fn display_spec(&self) -> Seq<char> {
        match self {
            TreeKey::PathKey { path, .. } => path@,
            TreeKey::StringKey(name) => name@,
        }
    }

    /// Whether the key stands for a file; a bare display name never does.
    pub open spec fn is_file_spec(&self) -> bool {
        match self {
            TreeKey::PathKey { is_file, .. } => *is_file,
            TreeKey::StringKey(_) => false,
        }
    }

    pub fn display_key(&self) -> (r: &str)
        ensures
            r@ == self.display_spec(),
    {
        match self {
            TreeKey::PathKey { path, .. } => path.as_str(),
            TreeKey::StringKey(name) => name.as_str(),
        }
    }

    pub fn is_file(&self) -> (r: bool)
        ensures
            r == self.is_file_spec(),
    {
        match self {
            TreeKey::PathKey { is_file, .. } => *is_file,
            TreeKey::StringKey(_) => false,
        }
    }
}

/// One node of the traversal output, in traversal order.
pub struct DirTreeLeaf {
    pub key: TreeKey,
    pub depth: usize,
    pub is_last: bool,
}

impl View for DirTreeLeaf {
    type V = LeafView;

    open spec fn view(&self) -> LeafView {
        LeafView {
            key: self.key.display_spec(),
            is_file: self.key.is_file_spec(),
            depth: self.depth as nat,
            is_last: self.is_last,
        }
    }
}

impl DirTreeLeaf {
    /// The root entry of a tree: depth zero, closing its (single) sibling group.
    pub fn new_root(root_folder: String) -> (r: DirTreeLeaf)
        ensures
            r@.key == root_folder@,
            !r@.is_file,
            r@.depth == 0,
            r@.is_last,
    {
        DirTreeLeaf { key: TreeKey::PathKey { path: root_folder, is_file: false }, depth: 0, is_last: true }
    }

    pub fn is_file(&self) -> (r: bool)
        ensures
            r == self@.is_file,
    {
        self.key.is_file()
    }
}

/// Display options of the tree renderer: whether file entries are shown,
/// and an optional byte count appended to each shown line.
pub struct DirTreeOptions {
    pub display_files: bool,
    pub file_size: Option<u64>,
}

impl Default for DirTreeOptions {
    /// By default files are displayed and no size suffix is added.
    fn default() -> (r: Self)
        ensures
            r.display_files,
            r.file_size is None,
    {
        DirTreeOptions { display_files: true, file_size: None }
    }
}

impl DirTreeOptions {
    /// A leaf is skipped exactly when it stands for a file and files
    /// are not displayed.
    pub open spec fn skip_spec(&self, is_file: bool) -> bool {
        is_file && !self.display_files
    }

    /// Whether the renderer drops the leaf carrying this key.
    pub fn should_skip_file_leaf(&self, key: &TreeKey) -> (r: bool)
        ensures
            r == self.skip_spec(key.is_file_spec()),
    {
        match key.is_file() {
            true => !self.display_files,
            false => false,
        }
    }

    /// The suffix appended to each rendered line: a bold human-readable
    /// size when one was supplied, otherwise nothing.
    pub open spec fn suffix_spec(&self) -> Seq<char> {
        match self.file_size {
            Some(size) => " - \x1b[1m"@ + format_size_spec(size as nat) + "\x1b[0m"@,
            None => Seq::empty(),
        }
    }

    pub fn get_tree_suffix_str(&self) -> (r: String)
        ensures
            r@ == self.suffix_spec(),
    {
        match self.file_size {
            Some(size) => {
                let mut out = String::from_str(" - \x1b[1m");
                let rendered = format_size(size);
                out.append(rendered.as_str());
                out.append("\x1b[0m");
                out
            },
            None => String::new(),
        }
    }
}

/// The glyph put directly before an entry's name: nothing for the root,
/// an elbow for the last sibling, a tee for the others.
pub open spec fn pointer_spec(depth: nat, is_last: bool) -> Seq<char> {
    if depth == 0 {
        Seq::empty()
    } else if is_last {
        "\u{2514}\u{2500}\u{2500} "@
    } else {
        "\u{251c}\u{2500}\u{2500} "@
    }
}

/// The continuation segment an entry leaves for its descendants' lines:
/// blank below a last sibling, a vertical bar below the others.
pub open spec fn prefix_spec(depth: nat, is_last: bool) -> Seq<char> {
    if depth == 0 {
        Seq::empty()
    } else if is_last {
        "    "@
    } else {
        "\u{2502}   "@
    }
}

/// All prefix segments of the stack, oldest first, as one string.
pub open spec fn concat_prefixes(stack: Seq<Seq<char>>) -> Seq<char>
    decreases stack.len(),
{
    if stack.len() == 0 {
        Seq::empty()
    } else {
        stack[0] + concat_prefixes(stack.drop_first())
    }
}

pub proof fn lemma_concat_prefixes_push(stack: Seq<Seq<char>>, x: Seq<char>)
    ensures
        concat_prefixes(stack.push(x)) == concat_prefixes(stack) + x,
    decreases stack.len(),
{
    if stack.len() == 0 {
        assert(stack.push(x)[0] == x);
        assert(stack.push(x).drop_first() =~= Seq::<Seq<char>>::empty());
        assert(concat_prefixes(stack.push(x)) == x + concat_prefixes(Seq::<Seq<char>>::empty()));
        assert(x + Seq::<char>::empty() =~= x);
        assert(concat_prefixes(stack) + x =~= x);
    } else {
        assert(stack.push(x)[0] == stack[0]);
        assert(stack.push(x).drop_first() =~= stack.drop_first().push(x));
        lemma_concat_prefixes_push(stack.drop_first(), x);
        assert(concat_prefixes(stack.push(x)) == stack[0] + (concat_prefixes(stack.drop_first())
            + x));
        assert(stack[0] + (concat_prefixes(stack.drop_first()) + x) =~= (stack[0]
            + concat_prefixes(stack.drop_first())) + x);
    }
}

/// The views of a stack of prefix segments.
pub open spec fn str_views(stack: Seq<&str>) -> Seq<Seq<char>> {
    stack.map_values(|x: &str| x@)
}

/// Joins the prefix segments currently on the stack, oldest first.
pub fn concat_prefix_stack(prefix_stack: &Vec<&str>) -> (r: String)
    ensures
        r@ == concat_prefixes(str_views(prefix_stack@)),
{
    let ghost vs = str_views(prefix_stack@);
    let mut out = String::new();
    let mut i: usize = 0;
    while i < prefix_stack.len()
        invariant
            i <= prefix_stack@.len(),
            out@ == concat_prefixes(vs.take(i as int)),
        decreases prefix_stack@.len() - i,
    {
        out.append(prefix_stack[i]);
        proof {
            assert(vs.take(i + 1) =~= vs.take(i as int).push(vs[i as int]));
            lemma_concat_prefixes_push(vs.take(i as int), vs[i as int]);
        }
        i = i + 1;
    }
    proof {
        assert(vs.take(prefix_stack@.len() as int) =~= vs);
    }
    out
}

/// The prefix stack cut back to `depth` entries; this is how the renderer
/// returns from a deeper subtree.
pub open spec fn truncated(stack: Seq<Seq<char>>, depth: nat) -> Seq<Seq<char>> {
    if depth < stack.len() {
        stack.take(depth as int)
    } else {
        stack
    }
}

/// One rendered line: the surviving prefix segments, the entry's own glyph,
/// its display text, the caller's suffix, and a newline.
pub open spec fn leaf_line(stack: Seq<Seq<char>>, leaf: LeafView, suffix: Seq<char>) -> Seq<char> {
    concat_prefixes(truncated(stack, leaf.depth)) + pointer_spec(leaf.depth, leaf.is_last)
        + leaf.key + suffix + seq!['\n']
}

/// The prefix stack after an entry's line is rendered: the truncated stack
/// with the entry's own continuation segment on top.
pub open spec fn next_stack(stack: Seq<Seq<char>>, leaf: LeafView) -> Seq<Seq<char>> {
    truncated(stack, leaf.depth).push(prefix_spec(leaf.depth, leaf.is_last))
}

/// The whole rendering of `leaves` starting from the given prefix stack.
/// A skipped leaf consumes no prefix slot, and the suffix goes only on
/// folder lines.
pub open spec fn render_lines(
    leaves: Seq<LeafView>,
    stack: Seq<Seq<char>>,
    display_files: bool,
    suffix: Seq<char>,
) -> Seq<char>
    decreases leaves.len(),
{
    if leaves.len() == 0 {
        Seq::empty()
    } else if leaves[0].is_file && !display_files {
        render_lines(leaves.drop_first(), stack, display_files, suffix)
    } else {
        leaf_line(
            stack,
            leaves[0],
            if leaves[0].is_file {
                Seq::empty()
            } else {
                suffix
            },
        ) + render_lines(
            leaves.drop_first(),
            next_stack(stack, leaves[0]),
            display_files,
            suffix,
        )
    }
}

} // verus!
