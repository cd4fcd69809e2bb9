use vstd::prelude::*;

use crate::sequence::Sequence;
use crate::base::Base;

verus! {

/// Whether `pattern` occurs in `haystack` at offset `i`, reading `haystack`
/// modulo its length.
pub open spec fn matches_at(haystack: Seq<Base>, pattern: Seq<Base>, i: int) -> bool {
    forall|j: int|
        0 <= j < pattern.len() ==> #[trigger] pattern[j] == haystack[(i + j) % (haystack.len() as int)]
}

/// How many offsets a scan visits: every position of a circular strand, or
/// the offsets at which the pattern fits in a linear one.
pub open spec fn scan_end(haystack: Seq<Base>, pattern: Seq<Base>, circular: bool) -> int {
    if circular {
        haystack.len() as int
    } else if pattern.len() <= haystack.len() {
        haystack.len() - pattern.len() + 1
    } else {
        0
    }
}

/// The offsets below `n` at which `pattern` occurs, in increasing order.
pub open spec fn offsets_below(haystack: Seq<Base>, pattern: Seq<Base>, n: int) -> Seq<u64>
    decreases n,
{
    if n <= 0 {
        Seq::empty()
    } else {
        let front = offsets_below(haystack, pattern, n - 1);
        if matches_at(haystack, pattern, n - 1) {
            front.push((n - 1) as u64)
        } else {
            front
        }
    }
}

/// Every offset at which `pattern` occurs in `haystack`, in increasing order.
pub open spec fn kmer_offsets(haystack: Seq<Base>, pattern: Seq<Base>, circular: bool) -> Seq<u64> {
    offsets_below(haystack, pattern, scan_end(haystack, pattern, circular))
}

/// The offsets below `n` are exactly those at which the pattern occurs, each
/// once and in strictly increasing order.
pub proof fn lemma_offsets_below(haystack: Seq<Base>, pattern: Seq<Base>, n: int)
    requires
        0 <= n <= u64::MAX + 1,
    ensures
        forall|x: u64|
            #[trigger] offsets_below(haystack, pattern, n).contains(x) <==> (x < n && matches_at(
                haystack,
                pattern,
                x as int,
            )),
        forall|a: int, b: int|
            0 <= a < b < offsets_below(haystack, pattern, n).len() ==> offsets_below(
                haystack,
                pattern,
                n,
            )[a] < offsets_below(haystack, pattern, n)[b],
        forall|a: int|
            0 <= a < offsets_below(haystack, pattern, n).len() ==> offsets_below(
                haystack,
                pattern,
                n,
            )[a] < n,
    decreases n,
{
    if n > 0 {
        lemma_offsets_below(haystack, pattern, n - 1);
        let front = offsets_below(haystack, pattern, n - 1);
        let all = offsets_below(haystack, pattern, n);
        if matches_at(haystack, pattern, n - 1) {
            assert forall|x: u64| all.contains(x) <==> (x < n && matches_at(
                haystack,
                pattern,
                x as int,
            )) by {
                if x == (n - 1) as u64 {
                    assert(all[all.len() - 1] == x);
                }
                if all.contains(x) && x != (n - 1) as u64 {
                    let k = choose|k: int| 0 <= k < all.len() && all[k] == x;
                    assert(front[k] == x);
                }
                if front.contains(x) {
                    let k = choose|k: int| 0 <= k < front.len() && front[k] == x;
                    assert(all[k] == x);
                }
            }
        }
    }
}

/// Every offset at which the pattern occurs within the scan is found, nothing
/// else is, and the offsets come in strictly increasing order.
pub proof fn lemma_kmer_offsets(haystack: Seq<Base>, pattern: Seq<Base>, circular: bool)
    requires
        haystack.len() <= u64::MAX,
    ensures
        forall|x: u64|
            #[trigger] kmer_offsets(haystack, pattern, circular).contains(x) <==> (x < scan_end(
                haystack,
                pattern,
                circular,
            ) && matches_at(haystack, pattern, x as int)),
        forall|a: int, b: int|
            0 <= a < b < kmer_offsets(haystack, pattern, circular).len() ==> kmer_offsets(
                haystack,
                pattern,
                circular,
            )[a] < kmer_offsets(haystack, pattern, circular)[b],
{
    lemma_offsets_below(haystack, pattern, scan_end(haystack, pattern, circular));
}

proof fn lemma_mod_next(a: int, n: int)
    requires
        0 <= a,
        0 < n,
    ensures
        (a + 1) % n == if a % n + 1 == n { 0 } else { a % n + 1 },
{
    vstd::arithmetic::div_mod::lemma_add_mod_noop(a, 1, n);
    if n == 1 {
        vstd::arithmetic::div_mod::lemma_mod_self_0(1);
    } else {
        vstd::arithmetic::div_mod::lemma_small_mod(1, n as nat);
        vstd::arithmetic::div_mod::lemma_mod_bound(a, n);
        if a % n + 1 == n {
            vstd::arithmetic::div_mod::lemma_mod_self_0(n);
        } else {
            vstd::arithmetic::div_mod::lemma_small_mod((a % n + 1) as nat, n as nat);
        }
    }
}

/// Whether `pattern` occurs in `haystack` at offset `i`, wrapping around its end.
fn matches_at_offset(haystack: &Vec<Base>, pattern: &Vec<Base>, i: usize) -> (r: bool)
    requires
        i < haystack@.len() || pattern@.len() == 0,
    ensures
        r == matches_at(haystack@, pattern@, i as int),
{
    let n = haystack.len();
    let m = pattern.len();
    let mut j: usize = 0;
    let mut idx: usize = i;
    if m == 0 {
        return true;
    }
    proof {
        vstd::arithmetic::div_mod::lemma_small_mod(i as nat, n as nat);
    }
    while j < m
        invariant
            n == haystack@.len(),
            m == pattern@.len(),
            0 < n,
            j <= m,
            idx as int == (i + j) % (n as int),
            forall|k: int| 0 <= k < j ==> #[trigger] pattern@[k] == haystack@[(i + k) % (n as int)],
        decreases m - j,
    {
        if haystack[idx] != pattern[j] {
            return false;
        }
        proof {
            lemma_mod_next(i + j, n as int);
        }
        idx = if idx + 1 == n { 0 } else { idx + 1 };
        j = j + 1;
    }
    true
}

/// Finds every offset at which `kmer` occurs in `sequence`, in increasing
/// order. On a circular strand every offset of `sequence` is tried and a match
/// may run over its end back to its start; on a linear one only the offsets at
/// which `kmer` fits.
pub fn find_kmers(sequence: &Sequence, kmer: &Sequence, circular: bool) -> (r: Vec<u64>)
    ensures
        r@ == kmer_offsets(sequence@, kmer@, circular),
{
    let n = sequence.0.len();
    let m = kmer.0.len();
    let mut result: Vec<u64> = Vec::new();
    if (circular && n == 0) || (!circular && m > n) {
        return result;
    }
    // The last offset to try; the scan visits `0..=last`.
    let last: usize = if circular {
        n - 1
    } else {
        n - m
    };
    let mut i: usize = 0;
    loop
        invariant_except_break
            n == sequence@.len(),
            m == kmer@.len(),
            last + 1 == scan_end(sequence@, kmer@, circular),
            i <= last,
            result@ == offsets_below(sequence@, kmer@, i as int),
        ensures
            result@ == kmer_offsets(sequence@, kmer@, circular),
        decreases last - i,
    {
        if matches_at_offset(&sequence.0, &kmer.0, i) {
            result.push(i as u64);
        }
        if i == last {
            break;
        }
        i = i + 1;
    }
    result
}

} // verus!
