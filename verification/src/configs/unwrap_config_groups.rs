use vstd::prelude::*;

verus! {

use vstd::string::StrSliceExecFns;
use vstd::string::StringExecFns;

use crate::configs::config::Config;
use crate::configs::config::PathConfig;
use crate::configs::config::PathConfigMap;
use crate::configs::config::SizeConfig;
use crate::configs::config::size_config_default;
use crate::configs::config_error::ConfigError;
use crate::text::str_eq_str;

/// All directory configurations of all groups, in file order.
pub open spec fn flatten_groups(groups: Seq<(String, Vec<PathConfig>)>) -> Seq<PathConfig>
    decreases groups.len(),
{
    if groups.len() == 0 {
        Seq::empty()
    } else {
        groups[0].1@ + flatten_groups(groups.drop_first())
    }
}

/// The configurations of the first group carrying the given name, if any.
pub open spec fn find_group(
    groups: Seq<(String, Vec<PathConfig>)>,
    name: Seq<char>,
) -> Option<Vec<PathConfig>>
    decreases groups.len(),
{
    if groups.len() == 0 {
        None
    } else if groups[0].0@ == name {
        Some(groups[0].1)
    } else {
        find_group(groups.drop_first(), name)
    }
}

/// Collects the directory configurations of every group.
pub fn unwrap_all_subgroups(subgroups: PathConfigMap) -> (r: Vec<PathConfig>)
    ensures
        r@ == flatten_groups(subgroups@),
{
    let ghost orig = subgroups@;
    let mut rest = subgroups;
    let mut out: Vec<PathConfig> = Vec::new();
    while rest.len() > 0
        invariant
            out@ + flatten_groups(rest@) == flatten_groups(orig),
        decreases rest.len(),
    {
        let ghost rest0 = rest@;
        let (_, mut group) = rest.remove(0);
        assert(rest@ =~= rest0.drop_first());
        assert(flatten_groups(rest0) == rest0[0].1@ + flatten_groups(rest0.drop_first()));
        assert(out@ + group@ + flatten_groups(rest@) =~= out@ + flatten_groups(rest0));
        while group.len() > 0
            invariant
                out@ + group@ + flatten_groups(rest@) == flatten_groups(orig),
            decreases group.len(),
        {
            let ghost out0 = out@;
            let ghost g0 = group@;
            let c = group.remove(0);
            assert(group@ =~= g0.drop_first());
            out.push(c);
            assert(out@ =~= out0 + seq![c]);
            assert(out@ + group@ =~= out0 + g0);
        }
        assert(out@ + flatten_groups(rest@) =~= out@ + group@ + flatten_groups(rest@));
    }
    assert(flatten_groups(rest@).len() == 0);
    assert(out@ =~= out@ + flatten_groups(rest@));
    out
}

/// Looks up one group by name, consuming the map; an unknown name is an error.
pub fn get_subgroup(subgroups: PathConfigMap, subgroup: &str) -> (r: Result<
    Vec<PathConfig>,
    ConfigError,
>)
    ensures
        match find_group(subgroups@, subgroup@) {
            Some(g) => r matches Ok(out) && out == g,
            None => r matches Err(ConfigError::FolderMapEmpty(s)) && s@ == subgroup@,
        },
{
    let ghost orig = subgroups@;
    let mut rest = subgroups;
    while rest.len() > 0
        invariant
            find_group(orig, subgroup@) == find_group(rest@, subgroup@),
        decreases rest.len(),
    {
        let ghost rest0 = rest@;
        let (key, group) = rest.remove(0);
        assert(rest@ =~= rest0.drop_first());
        if str_eq_str(key.as_str(), subgroup) {
            assert(rest0[0].0@ == subgroup@);
            assert(find_group(rest0, subgroup@) == Some(rest0[0].1));
            return Ok(group);
        }
    }
    Err(ConfigError::FolderMapEmpty(String::from_str(subgroup)))
}

/// Selects the named group when a non-empty name is given,
/// otherwise gathers every group.
pub fn get_path_config_folder_groups(group: Option<&str>, config: PathConfigMap) -> (r: Result<
    Vec<PathConfig>,
    ConfigError,
>)
    ensures
        match group {
            Some(name) if name@.len() > 0 => match find_group(config@, name@) {
                Some(g) => r matches Ok(out) && out == g,
                None => r matches Err(ConfigError::FolderMapEmpty(s)) && s@ == name@,
            },
            _ => r matches Ok(out) && out@ == flatten_groups(config@),
        },
{
    match group {
        Some(subgroup_name) => {
            if subgroup_name.unicode_len() > 0 {
                get_subgroup(config, subgroup_name)
            } else {
                Ok(unwrap_all_subgroups(config))
            }
        },
        None => Ok(unwrap_all_subgroups(config)),
    }
}

/// Resolves a parsed configuration into size settings and the directory
/// configurations selected by `filter_group`. A configuration without any
/// groups reports `ConfigNotFound` for the file it was read from.
pub fn fetch_cli_configs(config: Config, filter_group: Option<&str>, config_filepath: &str) -> (r:
    Result<(SizeConfig, Vec<PathConfig>), ConfigError>)
    ensures
        config.subgroups is None ==> (r matches Err(ConfigError::ConfigNotFound(p)) && p@
            == config_filepath@),
        config.subgroups matches Some(map) ==> {
            let size = if config.size is Some {
                config.size->0
            } else {
                size_config_default()
            };
            match filter_group {
                Some(name) if name@.len() > 0 => match find_group(map@, name@) {
                    Some(g) => r matches Ok(out) && out.0 == size && out.1 == g,
                    None => r matches Err(ConfigError::FolderMapEmpty(s)) && s@ == name@,
                },
                _ => r matches Ok(out) && out.0 == size && out.1@ == flatten_groups(map@),
            }
        },
{
    let size_config = match config.size {
        Some(s) => s,
        None => SizeConfig::default(),
    };
    match config.subgroups {
        None => Err(ConfigError::ConfigNotFound(String::from_str(config_filepath))),
        Some(config_map) => {
            let folder_configs = get_path_config_folder_groups(filter_group, config_map)?;
            Ok((size_config, folder_configs))
        },
    }
}

} // verus!
