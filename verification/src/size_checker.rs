use vstd::prelude::*;

verus! {


use crate::configs::config::PathConfig;

/// The sum of the sizes from position `from` on.
pub open spec fn sum_sizes_from(sizes: Seq<u64>, from: int) -> nat
    decreases sizes.len() - from,
{
    if from < 0 || from >= sizes.len() {
        0
    } else {
        (sizes[from] + sum_sizes_from(sizes, from + 1)) as nat
    }
}

/// Pairs each directory of a group with its measured size and adds the sizes
/// up. The caller measures each directory on disk, in the group's order, and
/// hands the measurements in.
pub fn calculate_group_file_size(user_group: &Vec<PathConfig>, sizes: &Vec<u64>) -> (r: (
    Vec<(String, u64)>,
    u64,
))
    requires
        sizes@.len() == user_group@.len(),
        sum_sizes_from(sizes@, 0) <= u64::MAX,
    ensures
        r.0@.len() == user_group@.len(),
        forall|i: int|
            0 <= i < r.0@.len() ==> (#[trigger] r.0@[i]).0@ == user_group@[i].directory@
                && r.0@[i].1 == sizes@[i],
        r.1 as nat == sum_sizes_from(sizes@, 0),
{
    let mut total_size: u64 = 0;
    let mut group_sizes: Vec<(String, u64)> = Vec::new();
    let mut i: usize = 0;
    while i < user_group.len()
        invariant
            i <= user_group@.len(),
            sizes@.len() == user_group@.len(),
            sum_sizes_from(sizes@, 0) <= u64::MAX,
            group_sizes@.len() == i,
            forall|j: int|
                0 <= j < i ==> (#[trigger] group_sizes@[j]).0@ == user_group@[j].directory@
                    && group_sizes@[j].1 == sizes@[j],
            total_size as nat + sum_sizes_from(sizes@, i as int) == sum_sizes_from(sizes@, 0),
        decreases user_group@.len() - i,
    {
        let group_size = sizes[i];
        let path_text = user_group[i].directory.as_str().to_owned();
        group_sizes.push((path_text, group_size));
        total_size = total_size + group_size;
        i = i + 1;
    }
    (group_sizes, total_size)
}

} // verus!
