//! Character-level string utilities: scanning for separators, dash folding,
//! and assembling output text.

use vstd::prelude::*;

verus! {

/// `s` with every dash folded to an underscore, the naming convention of the
/// resolved dependency graph.
pub open spec fn norm_dash(s: Seq<char>) -> Seq<char> {
    s.map_values(
        |c: char|
            if c == '-' {
                '_'
            } else {
                c
            },
    )
}

/// Whether `c` occurs in `s`.
pub open spec fn contains_char(s: Seq<char>, c: char) -> bool {
    exists|i: int| 0 <= i < s.len() && s[i] == c
}

/// The first position of `c` in `s` at or after `k`, if any.
pub open spec fn index_of_from(s: Seq<char>, c: char, k: int) -> Option<int>
    decreases s.len() - k,
{
    if k < 0 || k >= s.len() {
        None
    } else if s[k] == c {
        Some(k)
    } else {
        index_of_from(s, c, k + 1)
    }
}

/// The first position of `c` in `s`, if any.
pub open spec fn index_of(s: Seq<char>, c: char) -> Option<int> {
    index_of_from(s, c, 0)
}

pub proof fn lemma_index_of_prefix(s: Seq<char>, c: char, k: int)
    requires
        0 <= k <= s.len(),
        forall|m: int| 0 <= m < k ==> s[m] != c,
    ensures
        index_of(s, c) == index_of_from(s, c, k),
    decreases k,
{
    if k > 0 {
        lemma_index_of_prefix(s, c, k - 1);
    }
}

/// A `Some` result of the scan is the first occurrence.
pub proof fn lemma_index_of_from_some(s: Seq<char>, c: char, k: int, i: int)
    requires
        0 <= k <= s.len(),
        index_of_from(s, c, k) == Some(i),
    ensures
        k <= i < s.len(),
        s[i] == c,
        forall|m: int| k <= m < i ==> s[m] != c,
    decreases s.len() - k,
{
    if k < s.len() && s[k] != c {
        lemma_index_of_from_some(s, c, k + 1, i);
    }
}

/// A `None` result of the scan means `c` does not occur from `k` on.
pub proof fn lemma_index_of_from_none(s: Seq<char>, c: char, k: int)
    requires
        0 <= k <= s.len(),
        index_of_from(s, c, k) is None,
    ensures
        forall|m: int| k <= m < s.len() ==> s[m] != c,
    decreases s.len() - k,
{
    if k < s.len() {
        lemma_index_of_from_none(s, c, k + 1);
    }
}

/// The first position of `c` in `s`.
pub fn find_char(s: &str, c: char) -> (r: Option<usize>)
    ensures
        match r {
            Some(i) => index_of(s@, c) == Some(i as int),
            None => index_of(s@, c) is None,
        },
{
    let n = s.unicode_len();
    let mut i: usize = 0;
    while i < n
        invariant
            n == s@.len(),
            0 <= i <= n,
            forall|m: int| 0 <= m < i ==> s@[m] != c,
        decreases n - i,
    {
        if s.get_char(i) == c {
            proof {
                lemma_index_of_prefix(s@, c, i as int);
            }
            return Some(i);
        }
        i += 1;
    }
    proof {
        lemma_index_of_prefix(s@, c, n as int);
    }
    None
}

/// The first position of `c` in `s` at or after `k`.
pub fn find_char_from(s: &str, c: char, k: usize) -> (r: Option<usize>)
    ensures
        match r {
            Some(i) => index_of_from(s@, c, k as int) == Some(i as int) && k <= i < s@.len(),
            None => index_of_from(s@, c, k as int) is None,
        },
{
    let n = s.unicode_len();
    let mut i: usize = k;
    while i < n
        invariant
            n == s@.len(),
            k <= i,
            index_of_from(s@, c, k as int) == index_of_from(s@, c, i as int),
        decreases n - i,
    {
        if s.get_char(i) == c {
            return Some(i);
        }
        i += 1;
    }
    None
}

/// Whether `c` occurs in `s`.
pub fn str_contains_char(s: &str, c: char) -> (r: bool)
    ensures
        r == contains_char(s@, c),
{
    match find_char(s, c) {
        Some(i) => {
            proof {
                lemma_index_of_from_some(s@, c, 0, index_of(s@, c).unwrap());
            }
            true
        },
        None => {
            proof {
                lemma_index_of_from_none(s@, c, 0);
            }
            false
        },
    }
}

/// Whether `a` reads the same as `b` with `b`'s dashes folded to
/// underscores.
pub fn eq_norm_dash(a: &str, b: &str) -> (r: bool)
    ensures
        r == (a@ == norm_dash(b@)),
{
    let na = a.unicode_len();
    let nb = b.unicode_len();
    if na != nb {
        proof {
            assert(norm_dash(b@).len() == b@.len());
        }
        return false;
    }
    let mut i: usize = 0;
    while i < na
        invariant
            na == a@.len(),
            na == b@.len(),
            0 <= i <= na,
            forall|m: int| 0 <= m < i ==> a@[m] == norm_dash(b@)[m],
        decreases na - i,
    {
        let cb = b.get_char(i);
        let folded: char = if cb == '-' {
            '_'
        } else {
            cb
        };
        if a.get_char(i) != folded {
            proof {
                assert(norm_dash(b@)[i as int] == folded);
            }
            return false;
        }
        i += 1;
    }
    proof {
        assert(a@ =~= norm_dash(b@));
    }
    true
}

/// The feature name that is always considered declared: `default`.
pub open spec fn default_name() -> Seq<char> {
    seq!['d', 'e', 'f', 'a', 'u', 'l', 't']
}

/// A fresh `String` reading `default`.
pub fn default_string() -> (s: String)
    ensures
        s@ == default_name(),
{
    let s: String = "default".to_owned();
    proof {
        reveal_strlit("default");
        assert(s@ =~= default_name());
    }
    s
}

/// `a` followed by `/` followed by `b`: the conventional rendering of a
/// forwarded feature.
pub open spec fn slash_join(a: Seq<char>, b: Seq<char>) -> Seq<char> {
    a + seq!['/'] + b
}

/// Builds the string `a/b`.
pub fn make_slash_join(a: &str, b: &str) -> (r: String)
    ensures
        r@ == slash_join(a@, b@),
{
    let mut r: String = a.to_owned();
    r.append("/");
    r.append(b);
    proof {
        reveal_strlit("/");
        assert(r@ =~= slash_join(a@, b@));
    }
    r
}


/// `s` with every `\n` pair folded to a line break and every `\t` pair to a
/// tab: how the path-rendering delimiter option is interpreted.
pub open spec fn unescape_delim(s: Seq<char>) -> Seq<char>
    decreases s.len(),
{
    if s.len() == 0 {
        Seq::empty()
    } else if s.len() >= 2 && s[0] == '\\' && s[1] == 'n' {
        seq!['\n'] + unescape_delim(s.skip(2))
    } else if s.len() >= 2 && s[0] == '\\' && s[1] == 't' {
        seq!['\t'] + unescape_delim(s.skip(2))
    } else {
        seq![s[0]] + unescape_delim(s.skip(1))
    }
}

/// Interprets the escape pairs of a delimiter option.
pub fn unescape_delimiter(s: &str) -> (r: String)
    ensures
        r@ == unescape_delim(s@),
{
    let n = s.unicode_len();
    let mut out = String::new();
    let mut i: usize = 0;
    proof {
        assert(s@.skip(0) =~= s@);
        assert(out@ + unescape_delim(s@.skip(0)) =~= unescape_delim(s@));
    }
    while i < n
        invariant
            n == s@.len(),
            0 <= i <= n,
            out@ + unescape_delim(s@.skip(i as int)) == unescape_delim(s@),
        decreases n - i,
    {
        let c = s.get_char(i);
        let ghost rest = s@.skip(i as int);
        if c == '\\' && i + 1 < n && s.get_char(i + 1) == 'n' {
            out.append("\n");
            proof {
                reveal_strlit("\n");
                assert(rest.len() >= 2 && rest[0] == '\\' && rest[1] == 'n');
                assert(rest.skip(2) =~= s@.skip(i + 2 as int));
                assert(out@ + unescape_delim(s@.skip(i + 2 as int)) =~= unescape_delim(s@));
            }
            i += 2;
        } else if c == '\\' && i + 1 < n && s.get_char(i + 1) == 't' {
            out.append("\t");
            proof {
                reveal_strlit("\t");
                assert(rest.len() >= 2 && rest[0] == '\\' && rest[1] == 't');
                assert(rest.skip(2) =~= s@.skip(i + 2 as int));
                assert(out@ + unescape_delim(s@.skip(i + 2 as int)) =~= unescape_delim(s@));
            }
            i += 2;
        } else {
            let piece = s.substring_char(i, i + 1);
            out.append(piece);
            proof {
                assert(rest[0] == s@[i as int]);
                assert(piece@ =~= seq![rest[0]]);
                assert(!(rest.len() >= 2 && rest[0] == '\\' && rest[1] == 'n'));
                assert(!(rest.len() >= 2 && rest[0] == '\\' && rest[1] == 't'));
                assert(rest.skip(1) =~= s@.skip(i + 1 as int));
                assert(out@ + unescape_delim(s@.skip(i + 1 as int)) =~= unescape_delim(s@));
            }
            i += 1;
        }
    }
    proof {
        assert(s@.skip(n as int) =~= Seq::empty());
        assert(out@ =~= unescape_delim(s@));
    }
    out
}

} // verus!
