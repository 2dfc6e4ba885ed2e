use vstd::prelude::*;

verus! {

use vstd::string::StrSliceExecFns;
use vstd::string::StringExecFns;

/// Lexicographic order on character sequences, comparing code points.
pub open spec fn lex_le(a: Seq<char>, b: Seq<char>) -> bool
    decreases a.len(),
{
    if a.len() == 0 {
        true
    } else if b.len() == 0 {
        false
    } else if (a[0] as u32) == (b[0] as u32) {
        lex_le(a.drop_first(), b.drop_first())
    } else {
        (a[0] as u32) < (b[0] as u32)
    }
}

/// The order is total: any two strings are comparable.
pub proof fn lemma_lex_le_total(a: Seq<char>, b: Seq<char>)
    ensures
        lex_le(a, b) || lex_le(b, a),
    decreases a.len(),
{
    if a.len() == 0 || b.len() == 0 {
    } else if (a[0] as u32) == (b[0] as u32) {
        lemma_lex_le_total(a.drop_first(), b.drop_first());
    }
}

/// The order is reflexive.
pub proof fn lemma_lex_le_refl(a: Seq<char>)
    ensures
        lex_le(a, a),
    decreases a.len(),
{
    if a.len() > 0 {
        lemma_lex_le_refl(a.drop_first());
    }
}

/// The order is transitive.
pub proof fn lemma_lex_le_trans(a: Seq<char>, b: Seq<char>, c: Seq<char>)
    requires
        lex_le(a, b),
        lex_le(b, c),
    ensures
        lex_le(a, c),
    decreases a.len(),
{
    if a.len() == 0 || b.len() == 0 || c.len() == 0 {
    } else if (a[0] as u32) == (b[0] as u32) && (b[0] as u32) == (c[0] as u32) {
        lemma_lex_le_trans(a.drop_first(), b.drop_first(), c.drop_first());
    }
}

/// Two strings with a common prefix of length `i` compare as their suffixes do.
proof fn lemma_lex_le_common_prefix(a: Seq<char>, b: Seq<char>, i: int)
    requires
        0 <= i <= a.len(),
        i <= b.len(),
        forall|j: int| 0 <= j < i ==> a[j] == b[j],
    ensures
        lex_le(a, b) == lex_le(a.skip(i), b.skip(i)),
    decreases i,
{
    if i > 0 {
        assert(a.len() > 0 && b.len() > 0 && a[0] == b[0]);
        assert(lex_le(a, b) == lex_le(a.drop_first(), b.drop_first()));
        assert(forall|j: int| 0 <= j < i - 1 ==> a.drop_first()[j] == b.drop_first()[j]);
        lemma_lex_le_common_prefix(a.drop_first(), b.drop_first(), i - 1);
        assert(a.drop_first().skip(i - 1) =~= a.skip(i));
        assert(b.drop_first().skip(i - 1) =~= b.skip(i));
    } else {
        assert(a.skip(0) =~= a);
        assert(b.skip(0) =~= b);
    }
}

/// Decides the lexicographic order on two string slices.
pub fn str_le(a: &str, b: &str) -> (r: bool)
    ensures
        r == lex_le(a@, b@),
{
    let an = a.unicode_len();
    let bn = b.unicode_len();
    let mut i: usize = 0;
    loop
        invariant
            i <= an <= a@.len(),
            i <= bn <= b@.len(),
            an == a@.len(),
            bn == b@.len(),
            forall|j: int| 0 <= j < i ==> a@[j] == b@[j],
        decreases an - i,
    {
        proof {
            lemma_lex_le_common_prefix(a@, b@, i as int);
        }
        if i == an {
            assert(a@.skip(i as int).len() == 0);
            return true;
        }
        if i == bn {
            assert(b@.skip(i as int).len() == 0 && a@.skip(i as int).len() > 0);
            return false;
        }
        let ca = a.get_char(i);
        let cb = b.get_char(i);
        assert(a@.skip(i as int)[0] == a@[i as int]);
        assert(b@.skip(i as int)[0] == b@[i as int]);
        if ca as u32 == cb as u32 {
            assert(ca == cb);
            i = i + 1;
        } else {
            return (ca as u32) < (cb as u32);
        }
    }
}

/// Decides equality of two string slices, as equality of their character views.
pub fn str_eq_str(a: &str, b: &str) -> (r: bool)
    ensures
        r == (a@ == b@),
{
    let an = a.unicode_len();
    let bn = b.unicode_len();
    if an != bn {
        return false;
    }
    let mut i: usize = 0;
    while i < an
        invariant
            i <= an,
            an == a@.len() && bn == b@.len() && an == bn,
            forall|j: int| 0 <= j < i ==> a@[j] == b@[j],
        decreases an - i,
    {
        let ca = a.get_char(i);
        let cb = b.get_char(i);
        if ca as u32 != cb as u32 {
            assert(a@[i as int] != b@[i as int]);
            return false;
        }
        assert(ca == cb);
        i = i + 1;
    }
    assert(a@ =~= b@);
    true
}

/// Index of the last occurrence of `c` in `s`, or -1 if `c` does not occur.
pub open spec fn last_index_of(s: Seq<char>, c: char) -> int
    decreases s.len(),
{
    if s.len() == 0 {
        -1
    } else if s.last() == c {
        s.len() - 1
    } else {
        last_index_of(s.drop_last(), c)
    }
}

/// What `last_index_of` returns: the last position holding `c`, or -1.
pub proof fn lemma_last_index_of(s: Seq<char>, c: char)
    ensures
        -1 <= last_index_of(s, c) < s.len(),
        last_index_of(s, c) == -1 ==> forall|j: int| 0 <= j < s.len() ==> s[j] != c,
        last_index_of(s, c) >= 0 ==> s[last_index_of(s, c)] == c,
        forall|j: int| last_index_of(s, c) < j < s.len() ==> s[j] != c,
    decreases s.len(),
{
    if s.len() > 0 && s.last() != c {
        lemma_last_index_of(s.drop_last(), c);
        assert(forall|j: int| 0 <= j < s.len() - 1 ==> s.drop_last()[j] == s[j]);
    }
}

/// Conversely, a position holding `c` with none after it is `last_index_of`.
pub proof fn lemma_last_index_of_exact(s: Seq<char>, c: char, k: int)
    requires
        0 <= k < s.len(),
        s[k] == c,
        forall|j: int| k < j < s.len() ==> s[j] != c,
    ensures
        last_index_of(s, c) == k,
    decreases s.len(),
{
    if k == s.len() - 1 {
    } else {
        assert(s.last() != c);
        assert(forall|j: int| 0 <= j < s.len() - 1 ==> s.drop_last()[j] == s[j]);
        lemma_last_index_of_exact(s.drop_last(), c, k);
    }
}

/// Finds the last occurrence of `c` in `s`, scanning from the end.
pub fn find_last(s: &str, c: char) -> (r: Option<usize>)
    ensures
        match r {
            Some(k) => k == last_index_of(s@, c) && k < s@.len(),
            None => last_index_of(s@, c) == -1,
        },
{
    let n = s.unicode_len();
    let mut i: usize = n;
    while i > 0
        invariant
            i <= n,
            n == s@.len(),
            forall|j: int| i <= j < n ==> s@[j] != c,
        decreases i,
    {
        let ch = s.get_char(i - 1);
        if ch as u32 == c as u32 {
            assert(ch == c);
            proof {
                lemma_last_index_of_exact(s@, c, i - 1);
            }
            return Some(i - 1);
        }
        assert(s@[i - 1] != c);
        i = i - 1;
    }
    proof {
        lemma_last_index_of(s@, c);
        if last_index_of(s@, c) >= 0 {
            assert(s@[last_index_of(s@, c)] == c);
            assert(false);
        }
    }
    None
}

/// The character for a single decimal digit.
pub open spec fn digit_char(d: int) -> char {
    if d == 0 {
        '0'
    } else if d == 1 {
        '1'
    } else if d == 2 {
        '2'
    } else if d == 3 {
        '3'
    } else if d == 4 {
        '4'
    } else if d == 5 {
        '5'
    } else if d == 6 {
        '6'
    } else if d == 7 {
        '7'
    } else if d == 8 {
        '8'
    } else {
        '9'
    }
}

/// The decimal representation of a natural number, without leading zeros.
pub open spec fn dec_str(n: nat) -> Seq<char>
    decreases n,
{
    if n < 10 {
        seq![digit_char(n as int)]
    } else {
        dec_str(n / 10) + seq![digit_char((n % 10) as int)]
    }
}

fn digit_to_str(d: u64) -> (r: &'static str)
    requires
        d < 10,
    ensures
        r@ == seq![digit_char(d as int)],
{
    proof {
        reveal_strlit("0");
        reveal_strlit("1");
        reveal_strlit("2");
        reveal_strlit("3");
        reveal_strlit("4");
        reveal_strlit("5");
        reveal_strlit("6");
        reveal_strlit("7");
        reveal_strlit("8");
        reveal_strlit("9");
    }
    if d == 0 {
        assert("0"@ =~= seq![digit_char(0)]);
        "0"
    } else if d == 1 {
        assert("1"@ =~= seq![digit_char(1)]);
        "1"
    } else if d == 2 {
        assert("2"@ =~= seq![digit_char(2)]);
        "2"
    } else if d == 3 {
        assert("3"@ =~= seq![digit_char(3)]);
        "3"
    } else if d == 4 {
        assert("4"@ =~= seq![digit_char(4)]);
        "4"
    } else if d == 5 {
        assert("5"@ =~= seq![digit_char(5)]);
        "5"
    } else if d == 6 {
        assert("6"@ =~= seq![digit_char(6)]);
        "6"
    } else if d == 7 {
        assert("7"@ =~= seq![digit_char(7)]);
        "7"
    } else if d == 8 {
        assert("8"@ =~= seq![digit_char(8)]);
        "8"
    } else {
        assert("9"@ =~= seq![digit_char(9)]);
        "9"
    }
}

/// Renders a number below 100 as exactly two decimal digits.
pub fn two_digit_string(h: u64) -> (r: String)
    requires
        h < 100,
    ensures
        r@ == seq![digit_char(h as int / 10), digit_char(h as int % 10)],
{
    let tens = digit_to_str(h / 10);
    let ones = digit_to_str(h % 10);
    let r = String::from_str(tens).concat(ones);
    assert(r@ =~= seq![digit_char(h as int / 10), digit_char(h as int % 10)]);
    r
}

/// Renders a number in decimal.
pub fn u64_to_string(n: u64) -> (r: String)
    ensures
        r@ == dec_str(n as nat),
    decreases n,
{
    if n < 10 {
        String::from_str(digit_to_str(n))
    } else {
        let prefix = u64_to_string(n / 10);
        prefix.concat(digit_to_str(n % 10))
    }
}

} // verus!
