//! Byte-sequence scanning primitives: first occurrence of a byte, prefix
//! tests, and substring search, each with an exact specification.

use vstd::prelude::*;

verus! {

/// Index of the first occurrence of `b` in `s`, or `s.len()` when absent.
pub open spec fn find_byte(s: Seq<u8>, b: u8) -> int
    decreases s.len(),
{
    if s.len() == 0 {
        0
    } else if s[0] == b {
        0
    } else {
        1 + find_byte(s.drop_first(), b)
    }
}

pub proof fn lemma_find_byte(s: Seq<u8>, b: u8)
    ensures
        0 <= find_byte(s, b) <= s.len(),
        find_byte(s, b) < s.len() ==> s[find_byte(s, b)] == b,
        forall|i: int| 0 <= i < find_byte(s, b) ==> s[i] != b,
    decreases s.len(),
{
    if s.len() > 0 && s[0] != b {
        lemma_find_byte(s.drop_first(), b);
        assert(forall|i: int| 1 <= i < s.len() ==> s[i] == s.drop_first()[i - 1]);
    }
}

/// The first occurrence in a concatenation is the first occurrence in the
/// left part, or else `a.len()` plus the first occurrence in the right part.
pub proof fn lemma_find_byte_concat(a: Seq<u8>, c: Seq<u8>, b: u8)
    ensures
        find_byte(a, b) < a.len() ==> find_byte(a + c, b) == find_byte(a, b),
        find_byte(a, b) == a.len() ==> find_byte(a + c, b) == a.len() + find_byte(c, b),
    decreases a.len(),
{
    lemma_find_byte(a, b);
    if a.len() == 0 {
        assert(a + c =~= c);
    } else if (a + c)[0] == b {
    } else {
        lemma_find_byte_concat(a.drop_first(), c, b);
        assert((a + c).drop_first() =~= a.drop_first() + c);
    }
}

/// Whether `p` is a prefix of `s`.
pub open spec fn starts_with(s: Seq<u8>, p: Seq<u8>) -> bool {
    p.len() <= s.len() && s.subrange(0, p.len() as int) == p
}

/// Index of the first occurrence of `pat` in `s`, or `-1` when absent.
pub open spec fn find_sub(s: Seq<u8>, pat: Seq<u8>) -> int
    decreases s.len(),
{
    if pat.len() > s.len() {
        -1
    } else if s.len() == 0 {
        0
    } else if s.subrange(0, pat.len() as int) == pat {
        0
    } else {
        let r = find_sub(s.drop_first(), pat);
        if r == -1 {
            -1
        } else {
            1 + r
        }
    }
}

pub proof fn lemma_find_sub(s: Seq<u8>, pat: Seq<u8>)
    ensures
        find_sub(s, pat) == -1 || 0 <= find_sub(s, pat) <= s.len() - pat.len(),
        find_sub(s, pat) >= 0 ==> s.subrange(find_sub(s, pat), find_sub(s, pat) + pat.len())
            == pat,
    decreases s.len(),
{
    if pat.len() > s.len() {
    } else if s.len() == 0 {
        assert(s.subrange(0, 0) =~= s);
        assert(pat =~= s);
    } else if s.subrange(0, pat.len() as int) == pat {
    } else {
        lemma_find_sub(s.drop_first(), pat);
        let r = find_sub(s.drop_first(), pat);
        if r >= 0 {
            assert(s.drop_first().subrange(r, r + pat.len()) =~= s.subrange(
                1 + r,
                1 + r + pat.len(),
            ));
        }
    }
}

/// First occurrence of `b` in the slice, or its length when absent.
pub fn find_byte_x(v: &[u8], b: u8) -> (r: usize)
    ensures
        r == find_byte(v@, b),
{
    let n = v.len();
    let mut i: usize = 0;
    proof {
        assert(v@.subrange(0, n as int) =~= v@);
    }
    while i < n
        invariant
            0 <= i <= n,
            n == v@.len(),
            find_byte(v@, b) == i + find_byte(v@.subrange(i as int, n as int), b),
        decreases n - i,
    {
        let ghost rest = v@.subrange(i as int, n as int);
        assert(rest[0] == v@[i as int]);
        if v[i] == b {
            proof {
                assert(find_byte(rest, b) == 0);
            }
            return i;
        }
        proof {
            assert(rest.drop_first() =~= v@.subrange(i + 1, n as int));
        }
        i = i + 1;
    }
    proof {
        assert(v@.subrange(i as int, n as int) =~= Seq::<u8>::empty());
    }
    i
}

/// Whether the slice begins with `p`.
pub fn starts_with_x(v: &[u8], p: &[u8]) -> (r: bool)
    ensures
        r == starts_with(v@, p@),
{
    let m = p.len();
    if m > v.len() {
        return false;
    }
    let mut j: usize = 0;
    while j < m
        invariant
            0 <= j <= m,
            m == p@.len(),
            m <= v@.len(),
            forall|k: int| 0 <= k < j ==> v@[k] == p@[k],
        decreases m - j,
    {
        if v[j] != p[j] {
            proof {
                assert(v@.subrange(0, m as int)[j as int] != p@[j as int]);
            }
            return false;
        }
        j = j + 1;
    }
    proof {
        assert(v@.subrange(0, m as int) =~= p@);
    }
    true
}

/// Whether the slice's bytes equal `p` exactly.
pub fn bytes_eq(v: &[u8], p: &[u8]) -> (r: bool)
    ensures
        r == (v@ == p@),
{
    if v.len() != p.len() {
        proof {
            assert(v@.len() != p@.len());
        }
        return false;
    }
    let r = starts_with_x(v, p);
    proof {
        assert(v@.subrange(0, p@.len() as int) =~= v@);
    }
    r
}

fn match_at(v: &[u8], i: usize, p: &[u8]) -> (r: bool)
    requires
        i + p@.len() <= v@.len(),
    ensures
        r == (v@.subrange(i as int, i + p@.len()) == p@),
{
    let n = v.len();
    let m = p.len();
    let mut j: usize = 0;
    while j < m
        invariant
            0 <= j <= m,
            m == p@.len(),
            n == v@.len(),
            i + m <= v@.len(),
            forall|k: int| 0 <= k < j ==> v@[i + k] == p@[k],
        decreases m - j,
    {
        if v[i + j] != p[j] {
            proof {
                assert(v@.subrange(i as int, i + p@.len())[j as int] == v@[i + j]);
            }
            return false;
        }
        j = j + 1;
    }
    proof {
        assert(v@.subrange(i as int, i + p@.len()) =~= p@);
    }
    true
}

/// First occurrence of `pat` in the slice.
pub fn find_sub_x(v: &[u8], pat: &[u8]) -> (r: Option<usize>)
    ensures
        match r {
            Some(i) => find_sub(v@, pat@) == i,
            None => find_sub(v@, pat@) == -1,
        },
{
    let n = v.len();
    let m = pat.len();
    if m > n {
        return None;
    }
    if m == 0 {
        proof {
            assert(v@.subrange(0, 0) =~= pat@);
        }
        return Some(0);
    }
    let mut i: usize = 0;
    proof {
        assert(v@.subrange(0, n as int) =~= v@);
    }
    while i <= n - m
        invariant
            0 <= i,
            i <= n - m + 1,
            1 <= m <= n,
            n == v@.len(),
            m == pat@.len(),
            ({
                let rest = v@.subrange(i as int, n as int);
                find_sub(v@, pat@) == if find_sub(rest, pat@) == -1 {
                    -1int
                } else {
                    i + find_sub(rest, pat@)
                }
            }),
        decreases n - i,
    {
        let ghost rest = v@.subrange(i as int, n as int);
        if match_at(v, i, pat) {
            proof {
                assert(rest.subrange(0, m as int) =~= v@.subrange(i as int, i + m));
                assert(find_sub(rest, pat@) == 0);
            }
            return Some(i);
        }
        proof {
            assert(rest.subrange(0, m as int) =~= v@.subrange(i as int, i + m));
            assert(rest.subrange(0, m as int) != pat@);
            assert(rest.drop_first() =~= v@.subrange(i + 1, n as int));
            let fnext: int = find_sub(v@.subrange(i + 1, n as int), pat@);
            lemma_find_sub(v@.subrange(i + 1, n as int), pat@);
            assert(find_sub(rest.drop_first(), pat@) == fnext);
            assert(find_sub(rest, pat@) == if fnext == -1 {
                -1int
            } else {
                1 + fnext
            });
        }
        i = i + 1;
    }
    proof {
        let rest = v@.subrange(i as int, n as int);
        assert(rest.len() < m);
        assert(find_sub(rest, pat@) == -1);
    }
    None
}

} // verus!
