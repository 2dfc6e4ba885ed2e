use vstd::prelude::*;

verus! {

use std::collections::VecDeque;

use vstd::string::StrSliceExecFns;
use vstd::string::StringExecFns;

use crate::logging::folder_tree_helpers::LeafView;
use crate::logging::folder_tree_helpers::concat_prefix_stack;
use crate::logging::folder_tree_helpers::concat_prefixes;
use crate::logging::folder_tree_helpers::leaf_line;
use crate::logging::folder_tree_helpers::next_stack;
use crate::logging::folder_tree_helpers::pointer_spec;
use crate::logging::folder_tree_helpers::prefix_spec;
use crate::logging::folder_tree_helpers::render_lines;
use crate::logging::folder_tree_helpers::str_views;
use crate::logging::folder_tree_helpers::truncated;

/// One entry of a tree described by bare display names.
pub struct FileSystemLeaf {
    pub key: String,
    pub depth: usize,
    pub is_last: bool,
}

impl View for FileSystemLeaf {
    type V = LeafView;

    open spec fn view(&self) -> LeafView {
        LeafView { key: self.key@, is_file: false, depth: self.depth as nat, is_last: self.is_last }
    }
}

pub type FileSystemStack = VecDeque<FileSystemLeaf>;

pub open spec fn fs_leaf_views(s: Seq<FileSystemLeaf>) -> Seq<LeafView> {
    s.map_values(|l: FileSystemLeaf| l@)
}

struct FolderTreeLimbs {
    space: &'static str,
    branch: &'static str,
    tee: &'static str,
    last: &'static str,
}

impl FolderTreeLimbs {
    spec fn wf(&self) -> bool {
        &&& self.space@ == "    "@
        &&& self.branch@ == "\u{2502}   "@
        &&& self.tee@ == "\u{251c}\u{2500}\u{2500} "@
        &&& self.last@ == "\u{2514}\u{2500}\u{2500} "@
    }

    fn new() -> (r: FolderTreeLimbs)
        ensures
            r.wf(),
    {
        FolderTreeLimbs {
            space: "    ",
            branch: "\u{2502}   ",
            tee: "\u{251c}\u{2500}\u{2500} ",
            last: "\u{2514}\u{2500}\u{2500} ",
        }
    }

    fn get_pointer(&self, depth: usize, is_last: bool) -> (r: &'static str)
        requires
            self.wf(),
        ensures
            r@ == pointer_spec(depth as nat, is_last),
    {
        if depth == 0 {
            proof {
                reveal_strlit("");
            }
            assert(""@ =~= pointer_spec(0, is_last));
            ""
        } else if is_last {
            self.last
        } else {
            self.tee
        }
    }

    fn get_prefix(&self, depth: usize, is_last: bool) -> (r: &'static str)
        requires
            self.wf(),
        ensures
            r@ == prefix_spec(depth as nat, is_last),
    {
        if depth == 0 {
            proof {
                reveal_strlit("");
            }
            assert(""@ =~= prefix_spec(0, is_last));
            ""
        } else if is_last {
            self.space
        } else {
            self.branch
        }
    }
}

/// Renders a whole leaf sequence as an ASCII tree, one line per leaf,
/// threading the depth and last-sibling marks through a prefix stack.
pub fn process_folder_tree_stack(stack: FileSystemStack) -> (r: String)
    ensures
        r@ == render_lines(fs_leaf_views(stack@), Seq::empty(), true, Seq::empty()),
{
    let ghost all = fs_leaf_views(stack@);
    let tree_limbs = FolderTreeLimbs::new();
    let mut final_tree = String::new();
    let mut prefix_stack: Vec<&'static str> = Vec::new();
    let mut pending = stack;
    proof {
        assert(str_views(prefix_stack@) =~= Seq::<Seq<char>>::empty());
        assert(final_tree@ + render_lines(all, Seq::empty(), true, Seq::empty()) =~= render_lines(
            all,
            Seq::empty(),
            true,
            Seq::empty(),
        ));
    }
    while pending.len() > 0
        invariant
            tree_limbs.wf(),
            final_tree@ + render_lines(
                fs_leaf_views(pending@),
                str_views(prefix_stack@),
                true,
                Seq::empty(),
            ) == render_lines(all, Seq::empty(), true, Seq::empty()),
        decreases pending@.len(),
    {
        let ghost views0 = fs_leaf_views(pending@);
        let ghost pviews0 = str_views(prefix_stack@);
        let leaf = pending.pop_front().unwrap();
        proof {
            assert(fs_leaf_views(pending@) =~= views0.drop_first());
            assert(leaf@ == views0[0]);
        }
        let depth = leaf.depth;
        while prefix_stack.len() > depth
            invariant
                prefix_stack@.len() <= pviews0.len(),
                str_views(prefix_stack@) =~= pviews0.take(prefix_stack@.len() as int),
                depth <= prefix_stack@.len() || prefix_stack@.len() == pviews0.len(),
            decreases prefix_stack@.len(),
        {
            let ghost before = prefix_stack@;
            let popped = prefix_stack.pop();
            proof {
                assert(prefix_stack@ =~= before.drop_last());
                assert(str_views(prefix_stack@) =~= pviews0.take(prefix_stack@.len() as int));
            }
        }
        proof {
            assert(str_views(prefix_stack@) =~= truncated(pviews0, leaf@.depth));
        }
        let ghost ft0 = final_tree@;
        let pointer = tree_limbs.get_pointer(depth, leaf.is_last);
        let prefix_text = concat_prefix_stack(&prefix_stack);
        final_tree.append(prefix_text.as_str());
        final_tree.append(pointer);
        final_tree.append(leaf.key.as_str());
        final_tree.append("\n");
        proof {
            reveal_strlit("\n");
            assert("\n"@ =~= seq!['\n']);
            assert(final_tree@ =~= ft0 + leaf_line(pviews0, views0[0], Seq::empty()));
        }
        let new_prefix = tree_limbs.get_prefix(depth, leaf.is_last);
        let ghost ptrunc = str_views(prefix_stack@);
        prefix_stack.push(new_prefix);
        proof {
            assert(str_views(prefix_stack@) =~= ptrunc.push(new_prefix@));
            assert(str_views(prefix_stack@) =~= next_stack(pviews0, views0[0]));
            assert(final_tree@ + render_lines(
                fs_leaf_views(pending@),
                str_views(prefix_stack@),
                true,
                Seq::empty(),
            ) =~= render_lines(all, Seq::empty(), true, Seq::empty()));
        }
    }
    proof {
        assert(fs_leaf_views(pending@).len() == 0);
        assert(final_tree@ + Seq::<char>::empty() =~= final_tree@);
    }
    final_tree
}

} // verus!
