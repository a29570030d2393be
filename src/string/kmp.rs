use vstd::prelude::*;
use vstd::string::StringSliceAdditionalSpecFns;
use crate::string::brute_force::{occurs_at, occurrences, occurrences_below};

verus! {

/// The last `k` bytes of the first `i` bytes of `t` are the first `k` bytes
/// of `p`.
pub open spec fn ends_with_prefix(t: Seq<u8>, p: Seq<u8>, i: int, k: int) -> bool {
    0 <= k <= p.len() && k <= i <= t.len() && t.subrange(i - k, i) == p.subrange(0, k)
}

/// `v` is the longest proper prefix of the first `q` bytes of `p` that is
/// also their suffix.
pub open spec fn longest_border(p: Seq<u8>, q: int, v: int) -> bool {
    &&& 0 <= v < q <= p.len()
    &&& ends_with_prefix(p, p, q, v)
    &&& forall|k: int| v < k < q ==> !#[trigger] ends_with_prefix(p, p, q, k)
}

/// A shorter match at the same end is a border of the longer one.
proof fn lemma_shorter_match(t: Seq<u8>, p: Seq<u8>, i: int, q: int, k: int)
    requires
        ends_with_prefix(t, p, i, q),
        ends_with_prefix(t, p, i, k),
        k < q,
    ensures
        ends_with_prefix(p, p, q, k),
{
    assert forall|x: int| 0 <= x < k implies #[trigger] p.subrange(q - k, q)[x] == p.subrange(0, k)[x] by {
        assert(t.subrange(i - q, i)[q - k + x] == p.subrange(0, q)[q - k + x]);
        assert(t.subrange(i - k, i)[x] == p.subrange(0, k)[x]);
    }
    assert(p.subrange(q - k, q) =~= p.subrange(0, k));
}

/// A border of a match is a match.
proof fn lemma_border_match(t: Seq<u8>, p: Seq<u8>, i: int, q: int, k: int)
    requires
        ends_with_prefix(t, p, i, q),
        ends_with_prefix(p, p, q, k),
        k < q,
    ensures
        ends_with_prefix(t, p, i, k),
{
    assert forall|x: int| 0 <= x < k implies #[trigger] t.subrange(i - k, i)[x] == p.subrange(0, k)[x] by {
        assert(t.subrange(i - q, i)[q - k + x] == p.subrange(0, q)[q - k + x]);
        assert(p.subrange(q - k, q)[x] == p.subrange(0, k)[x]);
    }
    assert(t.subrange(i - k, i) =~= p.subrange(0, k));
}

/// A match grows by one byte when the next bytes agree.
proof fn lemma_extend(t: Seq<u8>, p: Seq<u8>, i: int, k: int)
    requires
        ends_with_prefix(t, p, i, k),
        k < p.len(),
        i < t.len(),
        t[i] == p[k],
    ensures
        ends_with_prefix(t, p, i + 1, k + 1),
{
    assert(t.subrange(i + 1 - (k + 1), i + 1) =~= p.subrange(0, k + 1)) by {
        assert forall|x: int| 0 <= x < k + 1 implies #[trigger] t.subrange(i - k, i + 1)[x] == p.subrange(0, k + 1)[x] by {
            if x < k {
                assert(t.subrange(i - k, i)[x] == p.subrange(0, k)[x]);
            }
        }
    }
}

/// A non-empty match at `i + 1` is a match at `i` followed by agreeing bytes.
proof fn lemma_shrink(t: Seq<u8>, p: Seq<u8>, i: int, k: int)
    requires
        ends_with_prefix(t, p, i + 1, k),
        k > 0,
    ensures
        ends_with_prefix(t, p, i, k - 1),
        t[i] == p[k - 1],
{
    assert(t.subrange(i + 1 - k, i + 1)[k - 1] == p.subrange(0, k)[k - 1]);
    assert(t.subrange(i - (k - 1), i) =~= p.subrange(0, k - 1)) by {
        assert forall|x: int| 0 <= x < k - 1 implies #[trigger] t.subrange(i - (k - 1), i)[x] == p.subrange(0, k - 1)[x] by {
            assert(t.subrange(i + 1 - k, i + 1)[x] == p.subrange(0, k)[x]);
        }
    }
}

/// Knuth-Morris-Pratt pattern search (positions count bytes).
pub trait Kmp {
    /// The bytes searched.
    spec fn text(&self) -> Seq<u8>;

    /// Every position at which `pattern` occurs, increasing; nothing when the
    /// pattern is longer than the text.
    fn kmp(&self, pattern: &str) -> (r: Vec<usize>)
        ensures
            r@ == occurrences(self.text(), pattern.spec_bytes()),
    ;
}

/// For each prefix of `p`, the length of its longest proper border.
fn border_table(p: &[u8]) -> (lps: Vec<usize>)
    requires
        p@.len() > 0,
    ensures
        lps@.len() == p@.len(),
        forall|q: int| 0 <= q < p@.len() ==> longest_border(p@, q + 1, #[trigger] lps@[q] as int),
{
    let m = p.len();
    let mut lps: Vec<usize> = Vec::with_capacity(m);
    lps.push(0);
    proof {
        assert(ends_with_prefix(p@, p@, 1, 0)) by {
            assert(p@.subrange(1, 1) =~= p@.subrange(0, 0));
        }
    }
    let mut len: usize = 0;
    let mut q: usize = 1;
    while q < m
        invariant
            m == p@.len(),
            1 <= q <= m,
            lps@.len() == q,
            forall|t: int| 0 <= t < q ==> longest_border(p@, t + 1, #[trigger] lps@[t] as int),
            longest_border(p@, q as int, len as int),
        decreases m - q,
    {
        let ghost top = len as int;
        while len > 0 && p[q] != p[len]
            invariant
                m == p@.len(),
                1 <= q < m,
                lps@.len() == q,
                forall|t: int| 0 <= t < q ==> longest_border(p@, t + 1, #[trigger] lps@[t] as int),
                len <= top < q,
                ends_with_prefix(p@, p@, q as int, len as int),
                forall|k: int| len < k < q && #[trigger] ends_with_prefix(p@, p@, q as int, k) ==> p@[k] != p@[q as int],
            decreases len,
        {
            let next = lps[len - 1];
            proof {
                let l = len as int;
                assert(longest_border(p@, l, next as int));
                lemma_border_match(p@, p@, q as int, l, next as int);
                assert forall|k: int| next < k < q && #[trigger] ends_with_prefix(p@, p@, q as int, k) implies p@[k] != p@[q as int] by {
                    if k < l {
                        lemma_shorter_match(p@, p@, q as int, l, k);
                    }
                }
            }
            len = next;
        }
        let ghost fell = len as int;
        if p[q] == p[len] {
            proof {
                lemma_extend(p@, p@, q as int, len as int);
            }
            len = len + 1;
        } else {
            proof {
                assert(p@.subrange(q + 1, q + 1) =~= p@.subrange(0, 0));
            }
            len = 0;
        }
        proof {
            assert forall|k: int| len < k < q + 1 implies !#[trigger] ends_with_prefix(p@, p@, q + 1, k) by {
                if ends_with_prefix(p@, p@, q + 1, k) {
                    lemma_shrink(p@, p@, q as int, k);
                    let k1 = k - 1;
                    if k1 > fell {
                        if k1 > top {
                            assert(!ends_with_prefix(p@, p@, q as int, k1));
                        }
                    }
                }
            }
        }
        let ghost before = lps@;
        lps.push(len);
        proof {
            assert forall|t: int| 0 <= t < q + 1 implies longest_border(p@, t + 1, #[trigger] lps@[t] as int) by {
                if t < q {
                    assert(lps@[t] == before[t]);
                }
            }
        }
        q = q + 1;
    }
    lps
}

/// The positions below `k` at which `pat` occurs are `0..k` when `pat` is
/// empty and `k` stays inside the text plus one.
proof fn lemma_empty_pattern(text: Seq<u8>, pat: Seq<u8>, k: nat)
    requires
        pat.len() == 0,
        k <= text.len() + 1,
    ensures
        occurrences_below(text, pat, k) == Seq::new(k, |x: int| x as usize),
    decreases k,
{
    if k > 0 {
        lemma_empty_pattern(text, pat, (k - 1) as nat);
        assert(text.subrange(k - 1, k - 1) =~= pat);
        assert(occurrences_below(text, pat, k) =~= Seq::new(k, |x: int| x as usize));
    }
}

/// How many start positions the first `i` bytes of a text have fully read
/// for a pattern of `m` bytes.
pub open spec fn starts_read(i: int, m: int) -> nat {
    if i >= m {
        (i - m + 1) as nat
    } else {
        0
    }
}

impl Kmp for str {
    open spec fn text(&self) -> Seq<u8> {
        self.spec_bytes()
    }

    fn kmp(&self, pattern: &str) -> (r: Vec<usize>) {
        let t = self.as_bytes();
        let p = pattern.as_bytes();
        let n = t.len();
        let m = p.len();
        let mut found: Vec<usize> = Vec::new();
        if m == 0 {
            let mut k: usize = 0;
            loop
                invariant_except_break
                    found@ == Seq::new(k as nat, |x: int| x as usize),
                invariant
                    n == t@.len(),
                    m == p@.len(),
                    m == 0,
                    k <= n,
                ensures
                    found@ == Seq::new((n + 1) as nat, |x: int| x as usize),
                decreases n - k,
            {
                found.push(k);
                proof {
                    assert(found@ =~= Seq::new((k + 1) as nat, |x: int| x as usize));
                }
                if k == n {
                    break;
                }
                k = k + 1;
            }
            proof {
                lemma_empty_pattern(t@, p@, (n + 1) as nat);
            }
            return found;
        }
        if n < m {
            proof {
                crate::string::brute_force::lemma_occurrences_none(t@, p@, (n + 1) as nat);
            }
            return found;
        }
        let lps = border_table(p);
        let mut j: usize = 0;
        let mut i: usize = 0;
        proof {
            assert(ends_with_prefix(t@, p@, 0, 0)) by {
                assert(t@.subrange(0, 0) =~= p@.subrange(0, 0));
            }
        }
        while i < n
            invariant
                n == t@.len(),
                m == p@.len(),
                0 < m <= n,
                lps@.len() == m,
                forall|q: int| 0 <= q < m ==> longest_border(p@, q + 1, #[trigger] lps@[q] as int),
                i <= n,
                j < m,
                ends_with_prefix(t@, p@, i as int, j as int),
                forall|k: int| j < k < m ==> !#[trigger] ends_with_prefix(t@, p@, i as int, k),
                found@ == occurrences_below(t@, p@, starts_read(i as int, m as int)),
            decreases n - i,
        {
            let ghost top = j as int;
            while j > 0 && t[i] != p[j]
                invariant
                    n == t@.len(),
                    m == p@.len(),
                    0 < m <= n,
                    lps@.len() == m,
                    forall|q: int| 0 <= q < m ==> longest_border(p@, q + 1, #[trigger] lps@[q] as int),
                    i < n,
                    j <= top < m,
                    ends_with_prefix(t@, p@, i as int, j as int),
                    forall|k: int| top < k < m ==> !#[trigger] ends_with_prefix(t@, p@, i as int, k),
                    forall|k: int| j < k <= top && #[trigger] ends_with_prefix(t@, p@, i as int, k) ==> p@[k] != t@[i as int],
                decreases j,
            {
                let next = lps[j - 1];
                proof {
                    let l = j as int;
                    assert(longest_border(p@, l, next as int));
                    lemma_border_match(t@, p@, i as int, l, next as int);
                    assert forall|k: int| next < k <= top && #[trigger] ends_with_prefix(t@, p@, i as int, k) implies p@[k] != t@[i as int] by {
                        if k < l {
                            lemma_shorter_match(t@, p@, i as int, l, k);
                        }
                    }
                }
                j = next;
            }
            let ghost fell = j as int;
            if t[i] == p[j] {
                proof {
                    lemma_extend(t@, p@, i as int, j as int);
                }
                j = j + 1;
            } else {
                proof {
                    assert(t@.subrange(i + 1, i + 1) =~= p@.subrange(0, 0));
                }
                j = 0;
            }
            proof {
                assert forall|k: int| j < k <= m implies !#[trigger] ends_with_prefix(t@, p@, i + 1, k) by {
                    if ends_with_prefix(t@, p@, i + 1, k) {
                        lemma_shrink(t@, p@, i as int, k);
                        let k1 = k - 1;
                        if k1 > top {
                            assert(!ends_with_prefix(t@, p@, i as int, k1));
                        }
                    }
                }
                let pos = i + 1 - m;
                if i + 1 >= m {
                    assert(occurs_at(t@, p@, pos) == ends_with_prefix(t@, p@, i + 1, m as int)) by {
                        assert(p@.subrange(0, m as int) =~= p@);
                    }
                }
            }
            if j == m {
                let ghost before = found@;
                found.push(i + 1 - m);
                let last = lps[m - 1];
                proof {
                    assert(longest_border(p@, m as int, last as int));
                    lemma_border_match(t@, p@, i + 1, m as int, last as int);
                    assert forall|k: int| last < k < m implies !#[trigger] ends_with_prefix(t@, p@, i + 1, k) by {
                        if ends_with_prefix(t@, p@, i + 1, k) {
                            lemma_shorter_match(t@, p@, i + 1, m as int, k);
                        }
                    }
                    assert(starts_read(i + 1, m as int) == starts_read(i as int, m as int) + 1);
                    assert(found@ == occurrences_below(t@, p@, starts_read(i + 1, m as int)));
                }
                j = last;
            } else {
                proof {
                    if i + 1 >= m {
                        assert(starts_read(i + 1, m as int) == starts_read(i as int, m as int) + 1);
                        assert(!occurs_at(t@, p@, i + 1 - m));
                    }
                }
            }
            i = i + 1;
        }
        proof {
            crate::string::brute_force::lemma_occurrences_stop(t@, p@, (n + 1) as nat);
        }
        found
    }
}

} // verus!
