use vstd::prelude::*;
use vstd::string::StringSliceAdditionalSpecFns;

verus! {

/// `pat` occurs in `text` starting at position `i`.
pub open spec fn occurs_at(text: Seq<u8>, pat: Seq<u8>, i: int) -> bool {
    0 <= i && i + pat.len() <= text.len() && text.subrange(i, i + pat.len()) == pat
}

/// The positions below `k` at which `pat` occurs in `text`, increasing.
pub open spec fn occurrences_below(text: Seq<u8>, pat: Seq<u8>, k: nat) -> Seq<usize>
    decreases k,
{
    if k == 0 {
        Seq::empty()
    } else {
        let rest = occurrences_below(text, pat, (k - 1) as nat);
        if occurs_at(text, pat, k - 1) {
            rest.push((k - 1) as usize)
        } else {
            rest
        }
    }
}

/// Every position at which `pat` occurs in `text`, increasing.
pub open spec fn occurrences(text: Seq<u8>, pat: Seq<u8>) -> Seq<usize> {
    occurrences_below(text, pat, text.len() + 1)
}

/// Pattern search by trying every start position (positions count bytes).
pub trait BruteForce {
    /// The bytes searched.
    spec fn text(&self) -> Seq<u8>;

    /// Every position at which `pattern` occurs, increasing; nothing when the
    /// pattern is longer than the text.
    fn brute_force(&self, pattern: &str) -> (r: Vec<usize>)
        ensures
            r@ == occurrences(self.text(), pattern.spec_bytes()),
    ;
}

pub proof fn lemma_occurrences_stop(text: Seq<u8>, pat: Seq<u8>, k: nat)
    requires
        pat.len() <= text.len(),
        k >= text.len() - pat.len() + 1,
        k <= text.len() + 1,
    ensures
        occurrences_below(text, pat, k) == occurrences_below(text, pat, (text.len() - pat.len() + 1) as nat),
    decreases k,
{
    if k > text.len() - pat.len() + 1 {
        lemma_occurrences_stop(text, pat, (k - 1) as nat);
    }
}

pub proof fn lemma_occurrences_none(text: Seq<u8>, pat: Seq<u8>, k: nat)
    requires
        pat.len() > text.len(),
    ensures
        occurrences_below(text, pat, k) == Seq::<usize>::empty(),
    decreases k,
{
    if k > 0 {
        lemma_occurrences_none(text, pat, (k - 1) as nat);
    }
}

impl BruteForce for str {
    open spec fn text(&self) -> Seq<u8> {
        self.spec_bytes()
    }

    fn brute_force(&self, pattern: &str) -> (r: Vec<usize>) {
        let s = self.as_bytes();
        let pat = pattern.as_bytes();
        let n = s.len();
        let m = pat.len();
        let mut indices: Vec<usize> = Vec::new();
        if n < m {
            proof {
                lemma_occurrences_none(s@, pat@, (n + 1) as nat);
            }
            return indices;
        }
        let end = n - m;
        let mut i: usize = 0;
        loop
            invariant_except_break
                indices@ == occurrences_below(s@, pat@, i as nat),
            invariant
                n == s@.len(),
                m == pat@.len(),
                m <= n,
                end == n - m,
                i <= end,
            ensures
                indices@ == occurrences_below(s@, pat@, (n - m + 1) as nat),
            decreases end - i,
        {
            let mut j: usize = 0;
            while j < m && s[i + j] == pat[j]
                invariant
                    n == s@.len(),
                    m == pat@.len(),
                    i + m <= n,
                    j <= m,
                    forall|t: int| 0 <= t < j ==> s@[i + t] == pat@[t],
                decreases m - j,
            {
                j = j + 1;
            }
            proof {
                if j == m {
                    assert(s@.subrange(i as int, i + m) =~= pat@);
                } else {
                    assert(s@.subrange(i as int, i + m)[j as int] != pat@[j as int]);
                }
            }
            if j == m {
                indices.push(i);
            }
            if i == end {
                break;
            }
            i = i + 1;
        }
        proof {
            lemma_occurrences_stop(s@, pat@, (n + 1) as nat);
        }
        indices
    }
}

} // verus!
