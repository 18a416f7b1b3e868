//! Factorials and the factorial number system.
//!
//! An index in `[0, n!)` names one permutation of `n` elements: the index is
//! written as a Lehmer code (digit `i` lies in `[0, n - i)`), and the code is
//! turned into a permutation by repeatedly picking from a shrinking list.
//! The map from index to permutation is a bijection, which lets a caller
//! produce the k-th permutation without producing the ones before it.

use vstd::arithmetic::div_mod::{lemma_fundamental_div_mod, lemma_fundamental_div_mod_converse};
use vstd::multiset::group_multiset_axioms;
use vstd::prelude::*;
use vstd::seq_lib::{to_multiset_contains, to_multiset_insert, to_multiset_remove};

verus! {

/// `n!`: the product of `1..=n`, with `0! == 1`.
pub open spec fn fact(n: nat) -> nat
    decreases n,
{
    if n == 0 {
        1
    } else {
        n * fact((n - 1) as nat)
    }
}

/// The values of a sequence of machine integers as natural numbers.
pub open spec fn as_nats(s: Seq<usize>) -> Seq<nat> {
    s.map_values(|v: usize| v as nat)
}

/// A key: `key.len()` distinct integers, each below `key.len()`.
pub open spec fn is_permutation(key: Seq<usize>) -> bool {
    &&& forall|i: int| 0 <= i < key.len() ==> #[trigger] key[i] < key.len()
    &&& key.no_duplicates()
}

/// The key `0, 1, .., n - 1`.
pub open spec fn identity_key(n: nat) -> Seq<usize> {
    Seq::new(n, |i: int| i as usize)
}

/// A Lehmer code for a list of `n` elements: digit `j` is below `n - j`.
pub open spec fn is_lehmer_code(code: Seq<nat>, n: nat) -> bool {
    forall|j: int| 0 <= j < code.len() ==> #[trigger] code[j] + j < n
}

/// The digits of `index` in the factorial number system, most significant
/// first. A size of zero or one gives the single digit 0.
pub open spec fn lehmer_digits(index: nat, size: nat) -> Seq<nat>
    decreases size,
{
    if size <= 1 {
        seq![0nat]
    } else {
        let multiplier = fact((size - 1) as nat);
        seq![index / multiplier] + lehmer_digits(index % multiplier, (size - 1) as nat)
    }
}

/// Picks from `elements` by `code`: each digit selects the element at that
/// position of what is left, and the selected element leaves the list.
pub open spec fn lehmer_pick<T>(elements: Seq<T>, code: Seq<nat>) -> Seq<T>
    decreases code.len(),
{
    if code.len() == 0 {
        Seq::empty()
    } else {
        seq![elements[code[0] as int]] + lehmer_pick(
            elements.remove(code[0] as int),
            code.drop_first(),
        )
    }
}

/// The permutation of `0..n` that `index` names. There is one permutation of
/// nothing, the empty one.
pub open spec fn nth_permutation(n: nat, index: nat) -> Seq<usize> {
    if n == 0 {
        Seq::empty()
    } else {
        lehmer_pick(identity_key(n), lehmer_digits(index, n))
    }
}

/// A factorial is at least one.
pub proof fn lemma_fact_positive(n: nat)
    ensures
        fact(n) >= 1,
    decreases n,
{
    if n > 0 {
        lemma_fact_positive((n - 1) as nat);
        let f = fact((n - 1) as nat);
        assert(n * f >= 1) by (nonlinear_arith)
            requires
                n >= 1,
                f >= 1,
        ;
    }
}

/// The factorial does not decrease.
pub proof fn lemma_fact_monotonic(a: nat, b: nat)
    requires
        a <= b,
    ensures
        fact(a) <= fact(b),
    decreases b,
{
    if a < b {
        lemma_fact_monotonic(a, (b - 1) as nat);
        let f = fact((b - 1) as nat);
        assert(f <= b * f) by (nonlinear_arith)
            requires
                b >= 1,
                f >= 0,
        ;
    }
}

/// Every index below `n!` has `n` digits that form a Lehmer code.
pub proof fn lemma_digits_are_lehmer_code(index: nat, n: nat)
    requires
        n >= 1,
        index < fact(n),
    ensures
        lehmer_digits(index, n).len() == n,
        is_lehmer_code(lehmer_digits(index, n), n),
    decreases n,
{
    if n > 1 {
        let f = fact((n - 1) as nat);
        lemma_fact_positive((n - 1) as nat);
        let d = index / f;
        let r = index % f;
        assert(d < n && r < f) by (nonlinear_arith)
            requires
                f >= 1,
                index < n * f,
                d == index / f,
                r == index % f,
        ;
        lemma_digits_are_lehmer_code(r, (n - 1) as nat);
        let tail = lehmer_digits(r, (n - 1) as nat);
        let digits = lehmer_digits(index, n);
        assert(digits =~= seq![d] + tail);
        assert forall|j: int| 0 <= j < digits.len() implies #[trigger] digits[j] + j < n by {
            if j > 0 {
                assert(digits[j] == tail[j - 1]);
            }
        }
    }
}

/// Two indices below `n!` with the same digits are the same index.
pub proof fn lemma_digits_injective(n: nat, a: nat, b: nat)
    requires
        a < fact(n),
        b < fact(n),
        lehmer_digits(a, n) == lehmer_digits(b, n),
    ensures
        a == b,
    decreases n,
{
    if n <= 1 {
        reveal_with_fuel(fact, 2);
    } else {
        let f = fact((n - 1) as nat);
        lemma_fact_positive((n - 1) as nat);
        let ta = lehmer_digits(a % f, (n - 1) as nat);
        let tb = lehmer_digits(b % f, (n - 1) as nat);
        let da = seq![a / f] + ta;
        let db = seq![b / f] + tb;
        assert(da[0] == db[0]);
        assert(ta =~= da.drop_first());
        assert(tb =~= db.drop_first());
        assert(a % f < f && b % f < f) by (nonlinear_arith)
            requires
                f >= 1,
        ;
        lemma_digits_injective((n - 1) as nat, a % f, b % f);
        lemma_fundamental_div_mod(a as int, f as int);
        lemma_fundamental_div_mod(b as int, f as int);
    }
}

/// Picking by a full Lehmer code rearranges the elements: what comes out holds
/// each element as often as the list did.
pub proof fn lemma_pick_permutes<T>(elements: Seq<T>, code: Seq<nat>)
    requires
        code.len() == elements.len(),
        is_lehmer_code(code, elements.len()),
    ensures
        lehmer_pick(elements, code).len() == elements.len(),
        lehmer_pick(elements, code).to_multiset() == elements.to_multiset(),
    decreases code.len(),
{
    broadcast use group_multiset_axioms;

    if code.len() == 0 {
        assert(elements =~= Seq::<T>::empty());
        assert(lehmer_pick(elements, code) =~= Seq::<T>::empty());
    } else {
        let d = code[0] as int;
        assert(code[0] + 0 < elements.len());
        let rest = code.drop_first();
        let smaller = elements.remove(d);
        assert forall|j: int| 0 <= j < rest.len() implies #[trigger] rest[j] + j
            < smaller.len() by {
            assert(code[j + 1] + (j + 1) < elements.len());
        }
        lemma_pick_permutes(smaller, rest);
        let tail = lehmer_pick(smaller, rest);
        let picked = lehmer_pick(elements, code);
        assert(picked =~= tail.insert(0, elements[d]));
        to_multiset_insert(tail, 0, elements[d]);
        to_multiset_remove(elements, d);
        to_multiset_contains(elements, elements[d]);
        assert(elements.contains(elements[d]));
        assert(picked.to_multiset() =~= elements.to_multiset());
    }
}

/// On a list without repeated elements, two Lehmer codes of one length that
/// pick the same sequence are the same code.
pub proof fn lemma_pick_injective<T>(elements: Seq<T>, c1: Seq<nat>, c2: Seq<nat>)
    requires
        elements.no_duplicates(),
        c1.len() == c2.len(),
        is_lehmer_code(c1, elements.len()),
        is_lehmer_code(c2, elements.len()),
        lehmer_pick(elements, c1) == lehmer_pick(elements, c2),
    ensures
        c1 == c2,
    decreases c1.len(),
{
    if c1.len() == 0 {
        assert(c1 =~= c2);
    } else {
        let d1 = c1[0] as int;
        let d2 = c2[0] as int;
        assert(c1[0] + 0 < elements.len());
        assert(c2[0] + 0 < elements.len());
        let t1 = lehmer_pick(elements.remove(d1), c1.drop_first());
        let t2 = lehmer_pick(elements.remove(d2), c2.drop_first());
        let picked_a = seq![elements[d1]] + t1;
        let picked_b = seq![elements[d2]] + t2;
        assert(picked_a[0] == picked_b[0]);
        assert(d1 == d2);
        assert(t1 =~= picked_a.drop_first());
        assert(t2 =~= picked_b.drop_first());
        let smaller = elements.remove(d1);
        assert(smaller.no_duplicates()) by {
            assert forall|i: int, j: int|
                0 <= i < smaller.len() && 0 <= j < smaller.len() && i != j implies smaller[i]
                != smaller[j] by {
                let si = if i < d1 { i } else { i + 1 };
                let sj = if j < d1 { j } else { j + 1 };
                assert(smaller[i] == elements[si]);
                assert(smaller[j] == elements[sj]);
            }
        }
        let r1 = c1.drop_first();
        let r2 = c2.drop_first();
        assert forall|j: int| 0 <= j < r1.len() implies #[trigger] r1[j] + j < smaller.len() by {
            assert(c1[j + 1] + (j + 1) < elements.len());
        }
        assert forall|j: int| 0 <= j < r2.len() implies #[trigger] r2[j] + j < smaller.len() by {
            assert(c2[j + 1] + (j + 1) < elements.len());
        }
        lemma_pick_injective(smaller, r1, r2);
        assert(c1 =~= seq![c1[0]] + r1);
        assert(c2 =~= seq![c2[0]] + r2);
    }
}

/// Every index below `n!` names a permutation of `0..n`.
pub proof fn lemma_nth_permutation_is_permutation(n: nat, index: nat)
    requires
        n <= usize::MAX,
        index < fact(n),
    ensures
        nth_permutation(n, index).len() == n,
        is_permutation(nth_permutation(n, index)),
        nth_permutation(n, index).to_multiset() == identity_key(n).to_multiset(),
{
    broadcast use group_multiset_axioms;

    if n == 0 {
        assert(nth_permutation(n, index) =~= identity_key(n));
    } else {
        let e = identity_key(n);
        let p = nth_permutation(n, index);
        lemma_digits_are_lehmer_code(index, n);
        lemma_pick_permutes(e, lehmer_digits(index, n));
        e.lemma_multiset_has_no_duplicates();
        p.lemma_multiset_has_no_duplicates_conv();
        assert forall|i: int| 0 <= i < p.len() implies #[trigger] p[i] < p.len() by {
            assert(p.contains(p[i]));
            to_multiset_contains(p, p[i]);
            to_multiset_contains(e, p[i]);
            let j = choose|j: int| 0 <= j < e.len() && e[j] == p[i];
            assert(e[j] == j as usize);
        }
    }
}

/// Two different indices below `n!` name two different permutations.
pub proof fn lemma_nth_permutation_injective(n: nat, a: nat, b: nat)
    requires
        n <= usize::MAX,
        a < fact(n),
        b < fact(n),
        nth_permutation(n, a) == nth_permutation(n, b),
    ensures
        a == b,
{
    if n == 0 {
    } else {
        lemma_digits_are_lehmer_code(a, n);
        lemma_digits_are_lehmer_code(b, n);
        lemma_pick_injective(identity_key(n), lehmer_digits(a, n), lehmer_digits(b, n));
        lemma_digits_injective(n, a, b);
    }
}

/// Picking from a list whose elements went through `f` gives what picking
/// from the list gives, gone through `f`.
pub proof fn lemma_pick_of_mapped<T, U>(elements: Seq<T>, code: Seq<nat>, f: spec_fn(T) -> U)
    requires
        is_lehmer_code(code, elements.len()),
    ensures
        lehmer_pick(elements.map_values(f), code) == lehmer_pick(elements, code).map_values(f),
    decreases code.len(),
{
    if code.len() == 0 {
        assert(lehmer_pick(elements, code).map_values(f) =~= Seq::<U>::empty());
    } else {
        let d = code[0] as int;
        assert(code[0] + 0 < elements.len());
        let rest = code.drop_first();
        let smaller = elements.remove(d);
        assert forall|j: int| 0 <= j < rest.len() implies #[trigger] rest[j] + j
            < smaller.len() by {
            assert(code[j + 1] + (j + 1) < elements.len());
        }
        lemma_pick_of_mapped(smaller, rest, f);
        assert(elements.map_values(f).remove(d) =~= smaller.map_values(f));
        assert(lehmer_pick(elements, code).map_values(f) =~= seq![f(elements[d])] + lehmer_pick(
            smaller,
            rest,
        ).map_values(f));
    }
}

/// Every permutation of `0..n` has an index below `n!` that names it. With
/// `lemma_nth_permutation_injective`, it has exactly one.
pub proof fn lemma_permutation_has_index(key: Seq<usize>) -> (index: nat)
    requires
        is_permutation(key),
        key.len() <= usize::MAX,
    ensures
        index < fact(key.len()),
        nth_permutation(key.len(), index) == key,
    decreases key.len(),
{
    let n = key.len();
    if n == 0 {
        assert(key =~= Seq::<usize>::empty());
        0
    } else if n == 1 {
        assert(key[0] < key.len());
        reveal_with_fuel(lehmer_pick, 2);
        assert(lehmer_pick(identity_key(1), seq![0nat]) =~= seq![0usize]);
        assert(key =~= seq![0usize]);
        0
    } else {
        let d = key[0];
        assert(key[0] < key.len());
        let lower = |v: usize|
            if v < d {
                v
            } else {
                (v - 1) as usize
            };
        let lift = |v: usize|
            if v < d {
                v
            } else {
                (v + 1) as usize
            };
        let tail = key.drop_first();
        let q = tail.map_values(lower);
        assert forall|j: int| 0 <= j < q.len() implies #[trigger] q[j] < q.len() by {
            assert(tail[j] == key[j + 1]);
            assert(key[j + 1] < key.len());
            assert(key[j + 1] != key[0]);
        }
        assert forall|i: int, j: int| 0 <= i < q.len() && 0 <= j < q.len() && i != j implies q[i]
            != q[j] by {
            assert(tail[i] == key[i + 1] && tail[j] == key[j + 1]);
            assert(key[i + 1] != key[0] && key[j + 1] != key[0]);
            assert(key[i + 1] != key[j + 1]);
        }
        let sub = lemma_permutation_has_index(q);
        let f = fact((n - 1) as nat);
        let index: nat = (d * f + sub) as nat;
        lemma_fact_positive((n - 1) as nat);
        lemma_fundamental_div_mod_converse(index as int, f as int, d as int, sub as int);
        assert(index < n * f) by (nonlinear_arith)
            requires
                index == d * f + sub,
                sub < f,
                d < n,
        ;
        let digits = lehmer_digits(sub, (n - 1) as nat);
        lemma_digits_are_lehmer_code(sub, (n - 1) as nat);
        assert(lehmer_digits(index, n) =~= seq![d as nat] + digits);
        let whole = identity_key(n);
        let less = identity_key((n - 1) as nat);
        assert(whole.remove(d as int) =~= less.map_values(lift));
        lemma_pick_of_mapped(less, digits, lift);
        assert((seq![d as nat] + digits).drop_first() =~= digits);
        assert(q.map_values(lift) =~= tail) by {
            assert forall|j: int| 0 <= j < tail.len() implies q.map_values(lift)[j] == tail[j] by {
                assert(tail[j] == key[j + 1]);
                assert(key[j + 1] != key[0]);
            }
        }
        assert(nth_permutation(n, index) =~= seq![d] + tail);
        assert(seq![d] + tail =~= key);
        index
    }
}

/// `num!`, or `None` where it does not fit the machine integer.
pub fn checked_factorial(num: usize) -> (product: Option<usize>)
    ensures
        product matches Some(value) ==> value == fact(num as nat),
        product is None <==> fact(num as nat) > usize::MAX,
{
    let mut product: usize = 1;
    let mut i: usize = 0;
    while i < num
        invariant
            i <= num,
            product == fact(i as nat),
        decreases num - i,
    {
        i = i + 1;
        assert(fact(i as nat) == i * fact((i - 1) as nat));
        assert(i * product == product * i) by (nonlinear_arith);
        match product.checked_mul(i) {
            Some(next) => {
                product = next;
            },
            None => {
                proof {
                    lemma_fact_monotonic(i as nat, num as nat);
                }
                return None;
            },
        }
    }
    Some(product)
}

/// `num!`.
pub fn factorial(num: usize) -> (product: usize)
    requires
        fact(num as nat) <= usize::MAX,
    ensures
        product == fact(num as nat),
{
    let mut product: usize = 1;
    let mut i: usize = 0;
    while i < num
        invariant
            i <= num,
            product == fact(i as nat),
            fact(num as nat) <= usize::MAX,
        decreases num - i,
    {
        i = i + 1;
        proof {
            lemma_fact_monotonic(i as nat, num as nat);
            assert(fact(i as nat) == i * fact((i - 1) as nat));
            assert(i * product == product * i) by (nonlinear_arith);
        }
        product = product * i;
    }
    product
}

/// The Lehmer code of `index` for a list of `size` elements.
pub fn index_to_lehmer(index: usize, size: usize) -> (code: Vec<usize>)
    requires
        size >= 1 ==> fact((size - 1) as nat) <= usize::MAX,
    ensures
        as_nats(code@) == lehmer_digits(index as nat, size as nat),
    decreases size,
{
    if size <= 1 {
        let out: Vec<usize> = vec![0];
        assert(as_nats(out@) =~= seq![0nat]);
        return out;
    }
    let multiplier = factorial(size - 1);
    proof {
        lemma_fact_positive((size - 1) as nat);
        lemma_fact_monotonic((size - 2) as nat, (size - 1) as nat);
    }
    let digit = index / multiplier;
    let mut next: Vec<usize> = index_to_lehmer(index % multiplier, size - 1);
    let mut out: Vec<usize> = vec![digit];
    out.append(&mut next);
    assert(as_nats(out@) =~= seq![digit as nat] + lehmer_digits(
        (index % multiplier) as nat,
        (size - 1) as nat,
    ));
    out
}

/// The elements of `list` in the order that `code` picks them.
pub fn lehmer_to_permutation<T: Copy>(list: &Vec<T>, code: &Vec<usize>) -> (out: Vec<T>)
    requires
        is_lehmer_code(as_nats(code@), list@.len()),
    ensures
        out@ == lehmer_pick(list@, as_nats(code@)),
{
    let mut left: Vec<T> = Vec::new();
    let mut k: usize = 0;
    while k < list.len()
        invariant
            k <= list.len(),
            left@ == list@.take(k as int),
        decreases list.len() - k,
    {
        left.push(list[k]);
        k = k + 1;
    }
    assert(left@ =~= list@);
    let ghost digits = as_nats(code@);
    let mut out: Vec<T> = Vec::new();
    let mut i: usize = 0;
    assert(digits.skip(0) =~= digits);
    assert(out@ + lehmer_pick(left@, digits) =~= lehmer_pick(left@, digits));
    while i < code.len()
        invariant
            i <= code.len(),
            digits == as_nats(code@),
            is_lehmer_code(digits, list@.len()),
            left@.len() + i == list@.len(),
            lehmer_pick(list@, digits) == out@ + lehmer_pick(left@, digits.skip(i as int)),
        decreases code.len() - i,
    {
        let d = code[i];
        assert(digits[i as int] + i < list@.len());
        let ghost before = left@;
        let ghost rest = digits.skip(i as int);
        let picked = left.remove(d);
        proof {
            assert(rest[0] == d);
            assert(rest.drop_first() =~= digits.skip(i + 1));
            assert((out@.push(picked)) + lehmer_pick(left@, digits.skip(i + 1)) =~= out@ + (
            seq![before[d as int]] + lehmer_pick(before.remove(d as int), rest.drop_first())));
        }
        out.push(picked);
        i = i + 1;
    }
    assert(digits.skip(i as int).len() == 0);
    assert(out@ + Seq::<T>::empty() =~= out@);
    out
}

/// The permutation of `0..size` that `index` names.
pub fn permutation_from_index(size: usize, index: usize) -> (key: Vec<usize>)
    requires
        size >= 1 ==> fact((size - 1) as nat) <= usize::MAX,
        index < fact(size as nat),
    ensures
        key@ == nth_permutation(size as nat, index as nat),
        key@.len() == size,
        is_permutation(key@),
{
    proof {
        lemma_nth_permutation_is_permutation(size as nat, index as nat);
    }
    if size == 0 {
        return Vec::new();
    }
    let mut list: Vec<usize> = Vec::new();
    let mut i: usize = 0;
    while i < size
        invariant
            i <= size,
            list@ == identity_key(i as nat),
        decreases size - i,
    {
        list.push(i);
        assert(list@ =~= identity_key((i + 1) as nat));
        i = i + 1;
    }
    let code = index_to_lehmer(index, size);
    proof {
        lemma_digits_are_lehmer_code(index as nat, size as nat);
    }
    lehmer_to_permutation(&list, &code)
}

} // verus!
