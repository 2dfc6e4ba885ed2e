use vstd::prelude::*;

pub mod cleaner_cli;
pub mod errors;
pub mod subprompts;

verus! {

use crate::cli_tools::cleaner_cli::DirectoryArgs;
use crate::configs::config::PathConfig;

/// Applies the command-line flags over a group of directory configurations:
/// the recursion and hidden-file flags replace the configured values, and a
/// size unit given on the command line replaces the configured display unit.
pub fn update_configs_with_cli_args(configs: Vec<PathConfig>, cleaner_args: &DirectoryArgs) -> (r:
    Vec<PathConfig>)
    ensures
        r@.len() == configs@.len(),
        forall|i: int|
            0 <= i < r@.len() ==> {
                let before = configs@[i];
                let after = #[trigger] r@[i];
                &&& after.directory == before.directory
                &&& after.extensions_to_delete == before.extensions_to_delete
                &&& after.extensions_to_keep == before.extensions_to_keep
                &&& after.recursive == cleaner_args.recursive
                &&& after.delete_hidden == cleaner_args.include_hidden
                &&& after.display_units == (match cleaner_args.size {
                    Some(unit) => unit,
                    None => before.display_units,
                })
            },
{
    let ghost orig = configs@;
    let mut rest = configs;
    let mut updated_configs: Vec<PathConfig> = Vec::new();
    while rest.len() > 0
        invariant
            updated_configs@.len() + rest@.len() == orig.len(),
            rest@ == orig.skip(updated_configs@.len() as int),
            forall|i: int|
                0 <= i < updated_configs@.len() ==> {
                    let before = orig[i];
                    let after = #[trigger] updated_configs@[i];
                    &&& after.directory == before.directory
                    &&& after.extensions_to_delete == before.extensions_to_delete
                    &&& after.extensions_to_keep == before.extensions_to_keep
                    &&& after.recursive == cleaner_args.recursive
                    &&& after.delete_hidden == cleaner_args.include_hidden
                    &&& after.display_units == (match cleaner_args.size {
                        Some(unit) => unit,
                        None => before.display_units,
                    })
                },
        decreases rest@.len(),
    {
        let ghost r0 = rest@;
        let mut config = rest.remove(0);
        proof {
            assert(rest@ =~= r0.drop_first());
            assert(config == orig[updated_configs@.len() as int]);
            assert(rest@ =~= orig.skip(updated_configs@.len() as int + 1));
        }
        config.recursive = cleaner_args.recursive;
        config.delete_hidden = cleaner_args.include_hidden;
        match cleaner_args.size {
            Some(size) => {
                config.display_units = size;
            },
            None => {},
        }
        updated_configs.push(config);
    }
    updated_configs
}

} // verus!
