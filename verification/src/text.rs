//! Character-level comparisons of strings.

use vstd::prelude::*;
use vstd::string::*;

verus! {

/// `p` is a prefix of `s`.
pub open spec fn is_prefix(p: Seq<char>, s: Seq<char>) -> bool {
    p.len() <= s.len() && s.subrange(0, p.len() as int) == p
}

/// `n` is the length of the longest common prefix of `a` and `b`.
pub open spec fn is_common_len(a: Seq<char>, b: Seq<char>, n: int) -> bool {
    &&& 0 <= n <= a.len()
    &&& n <= b.len()
    &&& forall|i: int| 0 <= i < n ==> a[i] == b[i]
    &&& (n < a.len() && n < b.len() ==> a[n] != b[n])
}

/// `a` comes strictly before `b` in the lexicographic order of characters.
pub open spec fn lex_less(a: Seq<char>, b: Seq<char>) -> bool {
    exists|n: int|
        is_common_len(a, b, n) && n < b.len() && (n == a.len() || (a[n] as u32) < (b[n] as u32))
}

/// Two numbers that both are the common prefix length are the same number.
pub proof fn lemma_common_len_unique(a: Seq<char>, b: Seq<char>, n: int, m: int)
    requires
        is_common_len(a, b, n),
        is_common_len(a, b, m),
    ensures
        n == m,
{
    if n < m {
        assert(a[n] == b[n]);
    } else if m < n {
        assert(a[m] == b[m]);
    }
}

/// The length, in characters, of the longest common prefix of `a` and `b`.
pub fn common_prefix_len(a: &str, b: &str) -> (n: usize)
    ensures
        is_common_len(a@, b@, n as int),
{
    let la: usize = a.unicode_len();
    let lb: usize = b.unicode_len();
    let mut n: usize = 0;
    while n < la && n < lb && a.get_char(n) == b.get_char(n)
        invariant
            la == a@.len(),
            lb == b@.len(),
            n <= la,
            n <= lb,
            forall|i: int| 0 <= i < n ==> a@[i] == b@[i],
        decreases la - n,
    {
        n = n + 1;
    }
    n
}

/// The lexicographic order is transitive.
pub proof fn lemma_lex_less_transitive(a: Seq<char>, b: Seq<char>, c: Seq<char>)
    requires
        lex_less(a, b),
        lex_less(b, c),
    ensures
        lex_less(a, c),
{
    let n = choose|n: int|
        is_common_len(a, b, n) && n < b.len() && (n == a.len() || (a[n] as u32) < (b[n] as u32));
    let m = choose|m: int|
        is_common_len(b, c, m) && m < c.len() && (m == b.len() || (b[m] as u32) < (c[m] as u32));
    if n <= m {
        assert(b[n] == c[n] || n == m);
        assert(is_common_len(a, c, n));
    } else {
        assert(a[m] == b[m]);
        assert(is_common_len(a, c, m));
    }
}

/// Compares two strings lexicographically: negative where `a` comes first,
/// positive where `b` does, zero where they are the same text.
pub fn compare_text(a: &str, b: &str) -> (o: i8)
    ensures
        o < 0 <==> lex_less(a@, b@),
        o > 0 <==> lex_less(b@, a@),
        o == 0 <==> a@ == b@,
{
    let n: usize = common_prefix_len(a, b);
    let la: usize = a.unicode_len();
    let lb: usize = b.unicode_len();
    proof {
        assert(is_common_len(b@, a@, n as int));
        if lex_less(a@, b@) {
            let m = choose|m: int|
                is_common_len(a@, b@, m) && m < b@.len() && (m == a@.len() || (a@[m] as u32) < (
                b@[m] as u32));
            lemma_common_len_unique(a@, b@, n as int, m);
        }
        if lex_less(b@, a@) {
            let m = choose|m: int|
                is_common_len(b@, a@, m) && m < a@.len() && (m == b@.len() || (b@[m] as u32) < (
                a@[m] as u32));
            lemma_common_len_unique(b@, a@, n as int, m);
        }
        if n == la && n == lb {
            assert(a@ =~= b@);
        }
    }
    if n == la && n == lb {
        0
    } else if n == la {
        -1
    } else if n == lb {
        1
    } else if (a.get_char(n) as u32) < (b.get_char(n) as u32) {
        -1
    } else {
        proof {
            assert(a@[n as int] != b@[n as int]);
            assert(a@[n as int] as u32 != b@[n as int] as u32);
        }
        1
    }
}

} // verus!
