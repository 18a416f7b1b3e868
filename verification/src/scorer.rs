//! Scoring candidates against a dictionary, and ranking them.
//!
//! A candidate scores one hit for every dictionary entry that stands
//! somewhere in it. The ranking lists the candidates by hits, most first;
//! candidates with equal hits keep the order in which they came.

use crate::text::{chars_of, contains, is_substring, pad, padded};
use vstd::prelude::*;

verus! {

/// Keeps a dictionary entry that stands somewhere in the candidate.
pub open spec fn occurs_in(candidate: Seq<char>) -> spec_fn(String) -> bool {
    |word: String| is_substring(candidate, word@)
}

/// The dictionary entries that stand somewhere in the candidate, in the
/// order of the dictionary.
pub open spec fn hits(candidate: Seq<char>, dictionary: Seq<String>) -> Seq<String> {
    dictionary.filter(occurs_in(candidate))
}

/// The hit counts of a list of results.
pub open spec fn hit_counts(results: Seq<(String, usize, Vec<String>)>) -> Seq<usize> {
    Seq::new(results.len(), |i: int| results[i].1)
}

/// The hit counts of the candidates of a list, each taken between two
/// spaces.
pub open spec fn scores(list: Seq<String>, dictionary: Seq<String>) -> Seq<usize> {
    Seq::new(list.len(), |i: int| hits(padded(list[i]@), dictionary).len() as usize)
}

/// Whether entry `a` stands before entry `b` in the ranking: it has more
/// hits, or as many and came first.
pub open spec fn ranks_before(counts: Seq<usize>, a: int, b: int) -> bool {
    counts[a] > counts[b] || (counts[a] == counts[b] && a < b)
}

/// Whether `order` lists each of the entries `lo..hi` once, every entry
/// before those that it ranks before.
pub open spec fn is_ranking_of(order: Seq<usize>, counts: Seq<usize>, lo: int, hi: int) -> bool {
    &&& order.len() == hi - lo
    &&& forall|k: int| 0 <= k < order.len() ==> lo <= #[trigger] order[k] < hi
    &&& forall|k: int, l: int|
        #![trigger order[k], order[l]]
        0 <= k < l < order.len() ==> ranks_before(counts, order[k] as int, order[l] as int)
    &&& forall|v: usize| lo <= v < hi ==> #[trigger] order.contains(v)
}

/// Whether `order` is the ranking of the entries with these hit counts.
pub open spec fn is_ranking(order: Seq<usize>, counts: Seq<usize>) -> bool {
    is_ranking_of(order, counts, 0, counts.len() as int)
}

/// The items in the order that `order` gives.
pub open spec fn arranged<T>(items: Seq<T>, order: Seq<usize>) -> Seq<T> {
    Seq::new(order.len(), |k: int| items[order[k] as int])
}

/// Two rankings of the same hit counts agree on their first `k` places.
proof fn lemma_rankings_agree(a: Seq<usize>, b: Seq<usize>, counts: Seq<usize>, k: int)
    requires
        is_ranking(a, counts),
        is_ranking(b, counts),
        0 <= k <= counts.len(),
    ensures
        forall|t: int| 0 <= t < k ==> a[t] == b[t],
    decreases k,
{
    if k > 0 {
        lemma_rankings_agree(a, b, counts, k - 1);
        let at = k - 1;
        if a[at] != b[at] {
            let v = a[at];
            let w = b[at];
            assert(b.contains(v));
            let p = choose|p: int| 0 <= p < b.len() && b[p] == v;
            assert(a.contains(w));
            let q = choose|q: int| 0 <= q < a.len() && a[q] == w;
            if p < at {
                assert(a[p] == b[p]);
                assert(ranks_before(counts, a[p] as int, a[at] as int));
            }
            if q < at {
                assert(a[q] == b[q]);
                assert(ranks_before(counts, b[q] as int, b[at] as int));
            }
            assert(ranks_before(counts, a[at] as int, a[q] as int));
            assert(ranks_before(counts, b[at] as int, b[p] as int));
        }
    }
}

/// Hit counts have one ranking.
pub proof fn lemma_ranking_unique(a: Seq<usize>, b: Seq<usize>, counts: Seq<usize>)
    requires
        is_ranking(a, counts),
        is_ranking(b, counts),
    ensures
        a == b,
{
    lemma_rankings_agree(a, b, counts, counts.len() as int);
    assert(a =~= b);
}

/// One ranking of the entries `lo..hi`, from a ranking of `lo..mid` and one
/// of `mid..hi`.
fn merge_runs(
    counts: &Vec<usize>,
    left: &Vec<usize>,
    right: &Vec<usize>,
    lo: usize,
    mid: usize,
    hi: usize,
) -> (merged: Vec<usize>)
    requires
        lo <= mid <= hi <= counts@.len(),
        is_ranking_of(left@, counts@, lo as int, mid as int),
        is_ranking_of(right@, counts@, mid as int, hi as int),
    ensures
        is_ranking_of(merged@, counts@, lo as int, hi as int),
{
    let mut merged: Vec<usize> = Vec::new();
    let mut i: usize = 0;
    let mut j: usize = 0;
    while i < left.len() || j < right.len()
        invariant
            lo <= mid <= hi <= counts@.len(),
            is_ranking_of(left@, counts@, lo as int, mid as int),
            is_ranking_of(right@, counts@, mid as int, hi as int),
            i <= left@.len(),
            j <= right@.len(),
            merged@.len() == i + j,
            forall|k: int| 0 <= k < merged@.len() ==> lo <= #[trigger] merged@[k] < hi,
            forall|k: int, l: int|
                #![trigger merged@[k], merged@[l]]
                0 <= k < l < merged@.len() ==> ranks_before(
                    counts@,
                    merged@[k] as int,
                    merged@[l] as int,
                ),
            forall|k: int|
                0 <= k < merged@.len() && i < left@.len() ==> ranks_before(
                    counts@,
                    #[trigger] merged@[k] as int,
                    left@[i as int] as int,
                ),
            forall|k: int|
                0 <= k < merged@.len() && j < right@.len() ==> ranks_before(
                    counts@,
                    #[trigger] merged@[k] as int,
                    right@[j as int] as int,
                ),
            forall|a: int| 0 <= a < i ==> merged@.contains(#[trigger] left@[a]),
            forall|b: int| 0 <= b < j ==> merged@.contains(#[trigger] right@[b]),
        decreases left@.len() - i + right@.len() - j,
    {
        let ghost before = merged@;
        let from_left = if i == left.len() {
            false
        } else if j == right.len() {
            true
        } else {
            assert(lo <= left@[i as int] < mid);
            assert(mid <= right@[j as int] < hi);
            counts[left[i]] >= counts[right[j]]
        };
        if from_left {
            let entry = left[i];
            assert(lo <= left@[i as int] < mid);
            merged.push(entry);
            proof {
                if j < right@.len() {
                    assert(mid <= right@[j as int] < hi);
                }
                if i + 1 < left@.len() {
                    assert(ranks_before(counts@, left@[i as int] as int, left@[i + 1] as int));
                }
            }
            i = i + 1;
        } else {
            let entry = right[j];
            assert(mid <= right@[j as int] < hi);
            merged.push(entry);
            proof {
                if j + 1 < right@.len() {
                    assert(ranks_before(counts@, right@[j as int] as int, right@[j + 1] as int));
                }
            }
            j = j + 1;
        }
        proof {
            assert forall|a: int| 0 <= a < i implies merged@.contains(#[trigger] left@[a]) by {
                if before.contains(left@[a]) {
                    let at = choose|at: int| 0 <= at < before.len() && before[at] == left@[a];
                    assert(merged@[at] == left@[a]);
                } else {
                    assert(merged@[merged@.len() - 1] == left@[a]);
                }
            }
            assert forall|b: int| 0 <= b < j implies merged@.contains(#[trigger] right@[b]) by {
                if before.contains(right@[b]) {
                    let at = choose|at: int| 0 <= at < before.len() && before[at] == right@[b];
                    assert(merged@[at] == right@[b]);
                } else {
                    assert(merged@[merged@.len() - 1] == right@[b]);
                }
            }
            assert forall|k: int, l: int|
                #![trigger merged@[k], merged@[l]]
                0 <= k < l < merged@.len() implies ranks_before(
                counts@,
                merged@[k] as int,
                merged@[l] as int,
            ) by {
                if l < before.len() {
                    assert(merged@[k] == before[k] && merged@[l] == before[l]);
                } else {
                    assert(merged@[k] == before[k]);
                }
            }
            assert forall|k: int|
                0 <= k < merged@.len() && i < left@.len() implies ranks_before(
                counts@,
                #[trigger] merged@[k] as int,
                left@[i as int] as int,
            ) by {
                if k < before.len() {
                    assert(merged@[k] == before[k]);
                }
            }
            assert forall|k: int|
                0 <= k < merged@.len() && j < right@.len() implies ranks_before(
                counts@,
                #[trigger] merged@[k] as int,
                right@[j as int] as int,
            ) by {
                if k < before.len() {
                    assert(merged@[k] == before[k]);
                }
            }
        }
    }
    proof {
        assert forall|v: usize| lo <= v < hi implies #[trigger] merged@.contains(v) by {
            if v < mid {
                assert(left@.contains(v));
                let a = choose|a: int| 0 <= a < left@.len() && left@[a] == v;
                assert(merged@.contains(left@[a]));
            } else {
                assert(right@.contains(v));
                let b = choose|b: int| 0 <= b < right@.len() && right@[b] == v;
                assert(merged@.contains(right@[b]));
            }
        }
    }
    merged
}

/// The ranking of the entries `lo..hi`.
fn rank_range(counts: &Vec<usize>, lo: usize, hi: usize) -> (order: Vec<usize>)
    requires
        lo <= hi <= counts@.len(),
    ensures
        is_ranking_of(order@, counts@, lo as int, hi as int),
    decreases hi - lo,
{
    if hi - lo == 0 {
        Vec::new()
    } else if hi - lo == 1 {
        let order: Vec<usize> = vec![lo];
        assert(order@[0] == lo);
        assert forall|v: usize| lo <= v < hi implies #[trigger] order@.contains(v) by {
            assert(order@[0] == v);
        }
        order
    } else {
        let mid = lo + (hi - lo) / 2;
        let left = rank_range(counts, lo, mid);
        let right = rank_range(counts, mid, hi);
        merge_runs(counts, &left, &right, lo, mid, hi)
    }
}

/// The ranking of the entries with these hit counts: entry after entry, the
/// place that each came in.
pub fn ranking(counts: &Vec<usize>) -> (order: Vec<usize>)
    ensures
        is_ranking(order@, counts@),
{
    rank_range(counts, 0, counts.len())
}

/// For each candidate, in the order of the list: the candidate between two
/// spaces, the number of its hits, and the hits.
pub fn score(list: &Vec<String>, dictonary: &Vec<String>) -> (results: Vec<
    (String, usize, Vec<String>),
>)
    ensures
        results@.len() == list@.len(),
        hit_counts(results@) == scores(list@, dictonary@),
        forall|i: int|
            0 <= i < list@.len() ==> {
                &&& (#[trigger] results@[i]).0@ == padded(list@[i]@)
                &&& results@[i].1 == hits(padded(list@[i]@), dictonary@).len()
                &&& results@[i].2@ == hits(padded(list@[i]@), dictonary@)
            },
{
    let mut words: Vec<Vec<char>> = Vec::new();
    let mut w: usize = 0;
    while w < dictonary.len()
        invariant
            w <= dictonary@.len(),
            words@.len() == w,
            forall|t: int| 0 <= t < w ==> (#[trigger] words@[t])@ == dictonary@[t]@,
        decreases dictonary.len() - w,
    {
        words.push(chars_of(dictonary[w].as_str()));
        w = w + 1;
    }
    let mut results: Vec<(String, usize, Vec<String>)> = Vec::new();
    let mut i: usize = 0;
    while i < list.len()
        invariant
            i <= list@.len(),
            words@.len() == dictonary@.len(),
            forall|t: int| 0 <= t < words@.len() ==> (#[trigger] words@[t])@ == dictonary@[t]@,
            results@.len() == i,
            forall|t: int|
                0 <= t < i ==> {
                    &&& (#[trigger] results@[t]).0@ == padded(list@[t]@)
                    &&& results@[t].1 == hits(padded(list@[t]@), dictonary@).len()
                    &&& results@[t].2@ == hits(padded(list@[t]@), dictonary@)
                },
        decreases list.len() - i,
    {
        let word = pad(&list[i]);
        let hay = chars_of(word.as_str());
        let ghost keep = occurs_in(hay@);
        let mut found: Vec<String> = Vec::new();
        let mut count: usize = 0;
        let mut d: usize = 0;
        proof {
            assert(dictonary@.take(0) =~= Seq::<String>::empty());
            reveal(Seq::filter);
        }
        while d < dictonary.len()
            invariant
                d <= dictonary@.len(),
                words@.len() == dictonary@.len(),
                forall|t: int|
                    0 <= t < words@.len() ==> (#[trigger] words@[t])@ == dictonary@[t]@,
                keep == occurs_in(hay@),
                found@ == dictonary@.take(d as int).filter(keep),
                count == found@.len(),
                count <= d,
            decreases dictonary.len() - d,
        {
            proof {
                assert(dictonary@.take(d + 1) =~= dictonary@.take(d as int).push(
                    dictonary@[d as int],
                ));
                dictonary@.take(d as int).lemma_filter_push(dictonary@[d as int], keep);
            }
            if contains(&hay, &words[d]) {
                count = count + 1;
                found.push(dictonary[d].clone());
            }
            d = d + 1;
        }
        assert(dictonary@.take(d as int) =~= dictonary@);
        results.push((word, count, found));
        i = i + 1;
    }
    assert(hit_counts(results@) =~= scores(list@, dictonary@));
    results
}

/// The results by hits, most first; results with equal hits keep their
/// order.
pub fn rank(results: Vec<(String, usize, Vec<String>)>) -> (ranked: Vec<
    (String, usize, Vec<String>),
>)
    ensures
        exists|order: Seq<usize>|
            is_ranking(order, hit_counts(results@)) && ranked@ == arranged(results@, order),
{
    let ghost given = results@;
    let mut results = results;
    let n = results.len();
    let mut counts: Vec<usize> = Vec::new();
    let mut c: usize = 0;
    while c < n
        invariant
            c <= n,
            n == results@.len(),
            results@ == given,
            counts@.len() == c,
            forall|t: int| 0 <= t < c ==> #[trigger] counts@[t] == given[t].1,
        decreases n - c,
    {
        counts.push(results[c].1);
        c = c + 1;
    }
    assert(counts@ =~= hit_counts(given));
    let order = ranking(&counts);
    let mut stack: Vec<(String, usize, Vec<String>)> = Vec::new();
    while results.len() > 0
        invariant
            n == given.len(),
            results@.len() + stack@.len() == n,
            results@ == given.take(results@.len() as int),
            forall|t: int| 0 <= t < stack@.len() ==> #[trigger] stack@[t] == given[n - 1 - t],
        decreases results@.len(),
    {
        let item = results.pop().unwrap();
        stack.push(item);
        assert(results@ =~= given.take(results@.len() as int));
    }
    let ghost turned = stack@;
    let mut slots: Vec<Option<(String, usize, Vec<String>)>> = Vec::new();
    while stack.len() > 0
        invariant
            n == given.len(),
            turned.len() == n,
            forall|t: int| 0 <= t < n ==> #[trigger] turned[t] == given[n - 1 - t],
            stack@.len() + slots@.len() == n,
            stack@ == turned.take(stack@.len() as int),
            forall|t: int|
                0 <= t < slots@.len() ==> #[trigger] slots@[t] == Some(given[t]),
        decreases stack@.len(),
    {
        let item = stack.pop().unwrap();
        slots.push(Some(item));
        assert(stack@ =~= turned.take(stack@.len() as int));
    }
    let mut ranked: Vec<(String, usize, Vec<String>)> = Vec::new();
    let mut k: usize = 0;
    while k < n
        invariant
            k <= n,
            n == given.len(),
            is_ranking(order@, hit_counts(given)),
            slots@.len() == n,
            ranked@.len() == k,
            forall|t: int| 0 <= t < k ==> #[trigger] ranked@[t] == given[order@[t] as int],
            forall|t: int|
                k <= t < n ==> slots@[#[trigger] order@[t] as int] == Some(
                    given[order@[t] as int],
                ),
        decreases n - k,
    {
        let at = order[k];
        assert(0 <= order@[k as int] < n);
        let ghost held = slots@;
        let mut item: Option<(String, usize, Vec<String>)> = None;
        slots.set_and_swap(at, &mut item);
        assert(item == Some(given[at as int]));
        proof {
            assert forall|t: int| k + 1 <= t < n implies slots@[#[trigger] order@[t] as int]
                == Some(given[order@[t] as int]) by {
                assert(ranks_before(
                    hit_counts(given),
                    order@[k as int] as int,
                    order@[t] as int,
                ));
                assert(0 <= order@[t] < n);
                assert(order@[t] != at);
                assert(slots@[order@[t] as int] == held[order@[t] as int]);
            }
        }
        ranked.push(item.unwrap());
        k = k + 1;
    }
    assert(ranked@ =~= arranged(given, order@));
    ranked
}

/// The candidates by hits, most first, each between two spaces and with its
/// hits; candidates with equal hits keep their order.
pub fn run_attack(list: Vec<String>, dictonary: Vec<String>) -> (ranked: Vec<
    (String, usize, Vec<String>),
>)
    ensures
        ranked@.len() == list@.len(),
        exists|order: Seq<usize>|
            {
                &&& is_ranking(order, scores(list@, dictonary@))
                &&& forall|k: int|
                    0 <= k < list@.len() ==> {
                        &&& (#[trigger] ranked@[k]).0@ == padded(list@[order[k] as int]@)
                        &&& ranked@[k].1 == hits(padded(list@[order[k] as int]@), dictonary@).len()
                        &&& ranked@[k].2@ == hits(padded(list@[order[k] as int]@), dictonary@)
                    }
            },
{
    let results = score(&list, &dictonary);
    let ranked = rank(results);
    proof {
        let order = choose|order: Seq<usize>|
            is_ranking(order, hit_counts(results@)) && ranked@ == arranged(results@, order);
        assert forall|k: int| 0 <= k < list@.len() implies {
            &&& (#[trigger] ranked@[k]).0@ == padded(list@[order[k] as int]@)
            &&& ranked@[k].1 == hits(padded(list@[order[k] as int]@), dictonary@).len()
            &&& ranked@[k].2@ == hits(padded(list@[order[k] as int]@), dictonary@)
        } by {
            let at = order[k] as int;
            assert(0 <= order[k] < list@.len());
            assert(ranked@[k] == results@[at]);
        }
    }
    ranked
}

} // verus!
