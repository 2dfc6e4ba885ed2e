use vstd::prelude::*;

verus! {

use std::collections::VecDeque;

use vstd::string::StrSliceExecFns;
use vstd::string::StringExecFns;

use crate::logging::folder_tree_helpers::DirTreeLeaf;
use crate::logging::folder_tree_helpers::DirTreeOptions;
use crate::logging::folder_tree_helpers::LeafView;
use crate::logging::folder_tree_helpers::concat_prefix_stack;
use crate::logging::folder_tree_helpers::leaf_line;
use crate::logging::folder_tree_helpers::next_stack;
use crate::logging::folder_tree_helpers::pointer_spec;
use crate::logging::folder_tree_helpers::prefix_spec;
use crate::logging::folder_tree_helpers::render_lines;
use crate::logging::folder_tree_helpers::str_views;
use crate::logging::folder_tree_helpers::truncated;

pub type FileSystemStack = VecDeque<DirTreeLeaf>;

pub open spec fn leaf_views(s: Seq<DirTreeLeaf>) -> Seq<LeafView> {
    s.map_values(|l: DirTreeLeaf| l@)
}

struct DirTreeLimbs;

impl DirTreeLimbs {
    fn get_pointer(depth: usize, is_last: bool) -> (r: &'static str)
        ensures
            r@ == pointer_spec(depth as nat, is_last),
    {
        if depth == 0 {
            proof {
                reveal_strlit("");
            }
            assert(""@ =~= pointer_spec(0, is_last));
            ""
        } else if is_last {
            "\u{2514}\u{2500}\u{2500} "
        } else {
            "\u{251c}\u{2500}\u{2500} "
        }
    }

    fn get_prefix(depth: usize, is_last: bool) -> (r: &'static str)
        ensures
            r@ == prefix_spec(depth as nat, is_last),
    {
        if depth == 0 {
            proof {
                reveal_strlit("");
            }
            assert(""@ =~= prefix_spec(0, is_last));
            ""
        } else if is_last {
            "    "
        } else {
            "\u{2502}   "
        }
    }

    fn get_pointer_and_prefix(depth: usize, is_last: bool) -> (r: (&'static str, &'static str))
        ensures
            r.0@ == pointer_spec(depth as nat, is_last),
            r.1@ == prefix_spec(depth as nat, is_last),
    {
        (Self::get_pointer(depth, is_last), Self::get_prefix(depth, is_last))
    }
}

/// Renders one leaf: cuts the prefix stack back to the leaf's depth, emits
/// its line, and leaves the leaf's own continuation segment on the stack.
fn get_single_tree_leaf(leaf: DirTreeLeaf, prefix_stack: &mut Vec<&'static str>, tree_suffix: String) -> (r:
    String)
    ensures
        r@ == leaf_line(str_views(old(prefix_stack)@), leaf@, tree_suffix@),
        str_views(final(prefix_stack)@) == next_stack(str_views(old(prefix_stack)@), leaf@),
{
    let ghost pviews0 = str_views(old(prefix_stack)@);
    prefix_stack.truncate(leaf.depth);
    proof {
        assert(str_views(prefix_stack@) =~= truncated(pviews0, leaf@.depth));
    }
    let (pointer, new_prefix) = DirTreeLimbs::get_pointer_and_prefix(leaf.depth, leaf.is_last);
    let mut current_line = concat_prefix_stack(prefix_stack);
    current_line.append(pointer);
    current_line.append(leaf.key.display_key());
    current_line.append(tree_suffix.as_str());
    let ghost ptrunc = str_views(prefix_stack@);
    prefix_stack.push(new_prefix);
    proof {
        assert(str_views(prefix_stack@) =~= ptrunc.push(new_prefix@));
    }
    current_line.append("\n");
    proof {
        reveal_strlit("\n");
        assert("\n"@ =~= seq!['\n']);
        assert(current_line@ =~= leaf_line(pviews0, leaf@, tree_suffix@));
    }
    current_line
}

/// Renders a whole leaf sequence as an ASCII tree, honouring the display
/// options: file leaves may be dropped, and each line carries the options'
/// suffix.
pub fn process_folder_tree_stack(stack: FileSystemStack, print_options: &DirTreeOptions) -> (r:
    String)
    ensures
        r@ == render_lines(
            leaf_views(stack@),
            Seq::empty(),
            print_options.display_files,
            print_options.suffix_spec(),
        ),
{
    let ghost all = leaf_views(stack@);
    let ghost sfx = print_options.suffix_spec();
    let mut dir_tree = String::new();
    let mut prefix_stack: Vec<&'static str> = Vec::new();
    let mut pending = stack;
    proof {
        assert(str_views(prefix_stack@) =~= Seq::<Seq<char>>::empty());
        assert(dir_tree@ + render_lines(all, Seq::empty(), print_options.display_files, sfx)
            =~= render_lines(all, Seq::empty(), print_options.display_files, sfx));
    }
    while pending.len() > 0
        invariant
            dir_tree@ + render_lines(
                leaf_views(pending@),
                str_views(prefix_stack@),
                print_options.display_files,
                sfx,
            ) == render_lines(all, Seq::empty(), print_options.display_files, sfx),
        decreases pending@.len(),
    {
        let ghost views0 = leaf_views(pending@);
        let ghost pviews0 = str_views(prefix_stack@);
        let leaf = pending.pop_front().unwrap();
        proof {
            assert(leaf_views(pending@) =~= views0.drop_first());
            assert(leaf@ == views0[0]);
        }
        if print_options.should_skip_file_leaf(&leaf.key) {
            continue;
        }
        let suffix = if leaf.key.is_file() {
            String::new()
        } else {
            print_options.get_tree_suffix_str()
        };
        let ghost dt0 = dir_tree@;
        let line = get_single_tree_leaf(leaf, &mut prefix_stack, suffix);
        dir_tree.append(line.as_str());
        proof {
            assert(dir_tree@ + render_lines(
                leaf_views(pending@),
                str_views(prefix_stack@),
                print_options.display_files,
                sfx,
            ) =~= render_lines(all, Seq::empty(), print_options.display_files, sfx));
        }
    }
    proof {
        assert(leaf_views(pending@).len() == 0);
        assert(dir_tree@ + Seq::<char>::empty() =~= dir_tree@);
    }
    dir_tree
}

/// Rendering is a pure function of the leaf views and the options: two runs
/// of the renderer over leaf sequences that read the same, with the same
/// options, produce byte-identical text.
pub proof fn lemma_render_deterministic(
    stack1: FileSystemStack,
    stack2: FileSystemStack,
    options: DirTreeOptions,
    out1: String,
    out2: String,
)
    requires
        call_ensures(process_folder_tree_stack, (stack1, &options), out1),
        call_ensures(process_folder_tree_stack, (stack2, &options), out2),
        leaf_views(stack1@) == leaf_views(stack2@),
    ensures
        out1@ == out2@,
{
}

} // verus!
