use vstd::prelude::*;

verus! {

use vstd::arithmetic::div_mod::lemma_fundamental_div_mod;
use vstd::string::StrSliceExecFns;
use vstd::string::StringExecFns;

use crate::text::dec_str;
use crate::text::digit_char;
use crate::text::find_last;
use crate::text::last_index_of;
use crate::text::lemma_last_index_of;
use crate::text::two_digit_string;
use crate::text::u64_to_string;

/// The final component of a path: everything after the last `/`,
/// or the whole path when it holds no `/`.
pub open spec fn file_name_spec(path: Seq<char>) -> Seq<char> {
    path.skip(last_index_of(path, '/') + 1)
}

/// A name is hidden when it starts with a dot.
pub open spec fn is_hidden_name(name: Seq<char>) -> bool {
    name.len() > 0 && name[0] == '.'
}

pub open spec fn is_hidden_path(path: Seq<char>) -> bool {
    is_hidden_name(file_name_spec(path))
}

/// Returns the final component of `path`.
pub fn file_name_of(path: &str) -> (r: &str)
    ensures
        r@ == file_name_spec(path@),
{
    let n = path.unicode_len();
    proof {
        lemma_last_index_of(path@, '/');
    }
    match find_last(path, '/') {
        Some(k) => path.substring_char(k + 1, n),
        None => {
            assert(path@.skip(0) =~= path@);
            path
        },
    }
}

/// Whether the entry named by `path` is hidden: its file name starts with `.`.
pub fn is_hidden_file(path: &str) -> (r: bool)
    ensures
        r == is_hidden_path(path@),
{
    let name = file_name_of(path);
    if name.unicode_len() == 0 {
        false
    } else {
        let c = name.get_char(0);
        c as u32 == '.' as u32
    }
}

/// 1024 to the power `k`: the number of bytes in the `k`-th binary size unit.
pub open spec fn unit_pow(k: nat) -> nat
    decreases k,
{
    if k == 0 {
        1
    } else {
        1024 * unit_pow((k - 1) as nat)
    }
}

/// Which binary unit a byte count falls in: 0 for bytes, 1 for KB, and so on.
pub open spec fn unit_index(bytes: nat) -> nat
    decreases bytes,
{
    if bytes < 1024 {
        0
    } else {
        1 + unit_index(bytes / 1024)
    }
}

/// The suffix of the `k`-th binary unit.
pub open spec fn unit_suffix(k: nat) -> Seq<char> {
    if k == 0 {
        seq!['B']
    } else if k == 1 {
        seq!['K', 'B']
    } else if k == 2 {
        seq!['M', 'B']
    } else if k == 3 {
        seq!['G', 'B']
    } else if k == 4 {
        seq!['T', 'B']
    } else if k == 5 {
        seq!['P', 'B']
    } else {
        seq!['E', 'B']
    }
}

/// The fractional part of `rem / u`, rounded half-up to hundredths.
pub open spec fn rounded_hundredths(rem: nat, u: nat) -> nat {
    (rem * 100 + u / 2) / u
}

/// A byte count scaled by the unit `u = unit_pow(k)` and shown with two decimals:
/// the whole part in decimal, a dot, two fraction digits, a space, and the suffix.
pub open spec fn scaled_size_str(bytes: nat, k: nat) -> Seq<char> {
    let u = unit_pow(k);
    let w = bytes / u;
    let h = rounded_hundredths(bytes % u, u);
    let w2 = if h == 100 {
        w + 1
    } else {
        w
    };
    let h2: nat = if h == 100 {
        0
    } else {
        h
    };
    dec_str(w2) + seq!['.'] + seq![digit_char(h2 as int / 10), digit_char(h2 as int % 10)]
        + seq![' '] + unit_suffix(k)
}

/// What `format_size` returns: the size scaled to the largest unit
/// that keeps the whole part under 1024.
pub open spec fn format_size_spec(bytes: nat) -> Seq<char> {
    scaled_size_str(bytes, unit_index(bytes))
}

pub proof fn lemma_unit_pow_positive(k: nat)
    ensures
        unit_pow(k) >= 1,
    decreases k,
{
    if k > 0 {
        lemma_unit_pow_positive((k - 1) as nat);
    }
}

/// The first few unit sizes, written out for callers that fix a unit.
pub proof fn lemma_unit_pow_small()
    ensures
        unit_pow(0) == 1,
        unit_pow(1) == 1024,
        unit_pow(2) == 1048576,
        unit_pow(3) == 1073741824,
        unit_pow(4) == 1099511627776,
{
    assert(unit_pow(0) == 1);
    assert(unit_pow(1) == 1024);
    assert(unit_pow(2) == 1048576);
    assert(unit_pow(3) == 1073741824);
    assert(unit_pow(4) == 1099511627776);
}

proof fn lemma_unit_pow_6()
    ensures
        unit_pow(6) == 0x1000000000000000,
{
    assert(unit_pow(0) == 1);
    assert(unit_pow(1) == 1024);
    assert(unit_pow(2) == 0x100000);
    assert(unit_pow(3) == 0x40000000);
    assert(unit_pow(4) == 0x10000000000);
    assert(unit_pow(5) == 0x4000000000000);
    assert(unit_pow(6) == 0x1000000000000000);
}

fn unit_suffix_str(k: u32) -> (r: &'static str)
    ensures
        r@ == unit_suffix(k as nat),
{
    proof {
        reveal_strlit("B");
        reveal_strlit("KB");
        reveal_strlit("MB");
        reveal_strlit("GB");
        reveal_strlit("TB");
        reveal_strlit("PB");
        reveal_strlit("EB");
    }
    if k == 0 {
        assert("B"@ =~= unit_suffix(0));
        "B"
    } else if k == 1 {
        assert("KB"@ =~= unit_suffix(1));
        "KB"
    } else if k == 2 {
        assert("MB"@ =~= unit_suffix(2));
        "MB"
    } else if k == 3 {
        assert("GB"@ =~= unit_suffix(3));
        "GB"
    } else if k == 4 {
        assert("TB"@ =~= unit_suffix(4));
        "TB"
    } else if k == 5 {
        assert("PB"@ =~= unit_suffix(5));
        "PB"
    } else {
        assert("EB"@ =~= unit_suffix(k as nat));
        "EB"
    }
}

/// Renders a byte count in the unit `unit_pow(k)`, with two decimals
/// rounded half-up and the unit's suffix.
pub(crate) fn render_scaled_size(bytes: u64, u: u64, k: u32) -> (r: String)
    requires
        u == unit_pow(k as nat),
    ensures
        r@ == scaled_size_str(bytes as nat, k as nat),
{
    proof {
        lemma_unit_pow_positive(k as nat);
    }
    let w: u64 = bytes / u;
    let rem: u64 = bytes % u;
    let h128: u128 = ((rem as u128) * 100 + (u as u128) / 2) / (u as u128);
    proof {
        assert(rem < u) by {
            lemma_fundamental_div_mod(bytes as int, u as int);
        }
        assert((rem as int) * 100 + (u as int) / 2 < 101 * (u as int)) by (nonlinear_arith)
            requires
                rem < u,
                u >= 1,
        ;
        assert(((rem as int) * 100 + (u as int) / 2) / (u as int) <= 100) by (nonlinear_arith)
            requires
                (rem as int) * 100 + (u as int) / 2 < 101 * (u as int),
                u >= 1,
        ;
    }
    let h: u64 = h128 as u64;
    assert(h == rounded_hundredths(bytes as nat % unit_pow(k as nat), unit_pow(k as nat)));
    let (w2, h2): (u64, u64) = if h == 100 {
        proof {
            if k == 0 {
                assert(u == 1);
                assert(rem == 0) by {
                    lemma_fundamental_div_mod(bytes as int, 1);
                }
                assert(h == 0);
            }
            assert(k >= 1);
            assert(unit_pow(k as nat) >= 1024) by {
                lemma_unit_pow_positive((k - 1) as nat);
            }
            assert(w < 0x10000000000000000int / 1024) by (nonlinear_arith)
                requires
                    w == bytes as int / u as int,
                    u >= 1024,
                    bytes < 0x10000000000000000int,
            ;
        }
        (w + 1, 0)
    } else {
        (w, h)
    };
    let whole = u64_to_string(w2);
    let frac = two_digit_string(h2);
    let mut out = whole;
    proof {
        reveal_strlit(".");
        reveal_strlit(" ");
    }
    assert("."@ =~= seq!['.']);
    assert(" "@ =~= seq![' ']);
    out.append(".");
    out.append(frac.as_str());
    out.append(" ");
    out.append(unit_suffix_str(k));
    out
}

/// Renders a byte count in a human-readable form, scaling to the largest
/// binary unit that keeps the whole part under 1024, with two decimals.
pub fn format_size(bytes: u64) -> (r: String)
    ensures
        r@ == format_size_spec(bytes as nat),
{
    let mut v: u64 = bytes;
    let mut u: u64 = 1;
    let mut k: u32 = 0;
    while v >= 1024
        invariant
            u == unit_pow(k as nat),
            v == bytes as nat / unit_pow(k as nat),
            unit_index(bytes as nat) == k + unit_index(v as nat),
            k <= 6,
        decreases v,
    {
        proof {
            lemma_unit_pow_positive(k as nat);
            if k == 6 {
                lemma_unit_pow_6();
                assert(v < 16) by (nonlinear_arith)
                    requires
                        v == bytes as int / u as int,
                        u == 0x1000000000000000,
                        0 <= bytes < 0x10000000000000000int,
                ;
                assert(false);
            }
            assert(bytes as int >= 1024 * (u as int)) by (nonlinear_arith)
                requires
                    v == bytes as int / u as int,
                    v >= 1024,
                    u >= 1,
                    bytes >= 0,
            ;
            assert((bytes as int / u as int) / 1024 == bytes as int / (u as int * 1024)) by {
                vstd::arithmetic::div_mod::lemma_div_denominator(bytes as int, u as int, 1024);
            }
        }
        let ghost u0: int = u as int;
        let ghost k0: nat = k as nat;
        v = v / 1024;
        u = u * 1024;
        k = k + 1;
        proof {
            assert(unit_pow(k as nat) == 1024 * unit_pow(k0));
            assert(u as int == 1024 * u0);
        }
    }
    proof {
        assert(unit_index(v as nat) == 0);
    }
    render_scaled_size(bytes, u, k)
}

} // verus!
