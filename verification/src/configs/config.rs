use vstd::prelude::*;

verus! {

use vstd::string::StrSliceExecFns;

use crate::utils::lemma_unit_pow_small;
use crate::utils::render_scaled_size;
use crate::utils::scaled_size_str;

/// The binary unit in which a byte count is displayed.
#[derive(Clone, Copy, Debug, PartialEq, Eq, Structural)]
pub enum DataSizeUnit {
    Bytes,
    KB,
    MB,
    GB,
    TB,
}

impl DataSizeUnit {
    /// The exponent of 1024 that the unit stands for.
    pub open spec fn exponent(self) -> nat {
        match self {
            DataSizeUnit::Bytes => 0,
            DataSizeUnit::KB => 1,
            DataSizeUnit::MB => 2,
            DataSizeUnit::GB => 3,
            DataSizeUnit::TB => 4,
        }
    }

    /// What `display_total_size` returns: the count scaled to this unit,
    /// with two decimals and the unit's suffix.
    pub open spec fn display_spec(self, total_size: nat) -> Seq<char> {
        scaled_size_str(total_size, self.exponent())
    }

    /// Renders a byte count in this unit.
    pub fn display_total_size(&self, total_size: u64) -> (r: String)
        ensures
            r@ == self.display_spec(total_size as nat),
    {
        proof {
            lemma_unit_pow_small();
        }
        match self {
            DataSizeUnit::Bytes => render_scaled_size(total_size, 1, 0),
            DataSizeUnit::KB => render_scaled_size(total_size, 1024, 1),
            DataSizeUnit::MB => render_scaled_size(total_size, 1048576, 2),
            DataSizeUnit::GB => render_scaled_size(total_size, 1073741824, 3),
            DataSizeUnit::TB => render_scaled_size(total_size, 1099511627776, 4),
        }
    }
}

/// Settings of the size-reporting command.
pub struct SizeConfig {
    pub display: DataSizeUnit,
    pub walk: bool,
}

/// The default size settings: plain bytes, no descent into subfolders.
pub open spec fn size_config_default() -> SizeConfig {
    SizeConfig { display: DataSizeUnit::Bytes, walk: false }
}

impl Default for SizeConfig {
    fn default() -> (r: Self)
        ensures
            r == size_config_default(),
    {
        SizeConfig { display: DataSizeUnit::Bytes, walk: false }
    }
}

/// The rules governing one directory: where to scan, which extensions to
/// delete or keep, whether to recurse, whether hidden files may be deleted,
/// and the unit for size displays.
pub struct PathConfig {
    pub directory: String,
    pub extensions_to_delete: Option<Vec<String>>,
    pub extensions_to_keep: Option<Vec<String>>,
    pub recursive: bool,
    pub delete_hidden: bool,
    pub display_units: DataSizeUnit,
}

impl PathConfig {
    /// A configuration for one directory with every other setting defaulted:
    /// no extension lists, no recursion, hidden files protected, sizes in bytes.
    pub fn new(directory: String) -> (r: Self)
        ensures
            r.directory == directory,
            r.extensions_to_delete is None,
            r.extensions_to_keep is None,
            !r.recursive,
            !r.delete_hidden,
            r.display_units is Bytes,
    {
        PathConfig {
            directory,
            extensions_to_delete: None,
            extensions_to_keep: None,
            recursive: false,
            delete_hidden: false,
            display_units: DataSizeUnit::Bytes,
        }
    }
}

/// Named groups of directory configurations. A lookup by name takes the
/// first group carrying it; the caller that builds the map fixes the order.
pub type PathConfigMap = Vec<(String, Vec<PathConfig>)>;

/// The whole configuration file: size settings and the directory groups.
pub struct Config {
    pub size: Option<SizeConfig>,
    pub subgroups: Option<PathConfigMap>,
}

/// An extension with any leading dots removed.
pub open spec fn trim_leading_dots(s: Seq<char>) -> Seq<char>
    decreases s.len(),
{
    if s.len() > 0 && s[0] == '.' {
        trim_leading_dots(s.drop_first())
    } else {
        s
    }
}

proof fn lemma_trim_leading_dots_skip(s: Seq<char>, i: int)
    requires
        0 <= i <= s.len(),
        forall|j: int| 0 <= j < i ==> s[j] == '.',
        i < s.len() ==> s[i] != '.',
    ensures
        trim_leading_dots(s) == s.skip(i),
    decreases i,
{
    if i == 0 {
        assert(s.skip(0) =~= s);
    } else {
        assert(s.len() > 0 && s[0] == '.');
        assert(forall|j: int| 0 <= j < i - 1 ==> s.drop_first()[j] == '.');
        lemma_trim_leading_dots_skip(s.drop_first(), i - 1);
        assert(s.drop_first().skip(i - 1) =~= s.skip(i));
    }
}

/// Strips leading dots from one extension.
pub fn trim_extension(s: &str) -> (r: &str)
    ensures
        r@ == trim_leading_dots(s@),
{
    let n = s.unicode_len();
    let mut i: usize = 0;
    while i < n
        invariant
            i <= n,
            n == s@.len(),
            forall|j: int| 0 <= j < i ==> s@[j] == '.',
        decreases n - i,
    {
        let c = s.get_char(i);
        if c as u32 != '.' as u32 {
            assert(s@[i as int] != '.');
            proof {
                lemma_trim_leading_dots_skip(s@, i as int);
            }
            return s.substring_char(i, n);
        }
        assert(s@[i as int] == '.');
        i = i + 1;
    }
    proof {
        lemma_trim_leading_dots_skip(s@, n as int);
    }
    s.substring_char(n, n)
}

/// Normalizes a list of extensions read from a configuration file,
/// removing leading dots from each entry.
pub fn normalize_extensions(extensions: Vec<String>) -> (r: Vec<String>)
    ensures
        r@.len() == extensions@.len(),
        forall|i: int|
            0 <= i < r@.len() ==> r@[i]@ == trim_leading_dots(extensions@[i]@),
{
    let ghost orig = extensions@;
    let mut rest = extensions;
    let mut out: Vec<String> = Vec::new();
    while rest.len() > 0
        invariant
            out@.len() + rest@.len() == orig.len(),
            rest@ =~= orig.skip(out@.len() as int),
            forall|i: int|
                0 <= i < out@.len() ==> out@[i]@ == trim_leading_dots(orig[i]@),
        decreases rest.len(),
    {
        let e = rest.remove(0);
        assert(e@ == orig[out@.len() as int]@);
        let trimmed = trim_extension(e.as_str());
        let owned = trimmed.to_owned();
        out.push(owned);
    }
    out
}

} // verus!
