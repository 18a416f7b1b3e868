//! The candidate space of a multi-stage transposition.
//!
//! For a list of stage sizes, a candidate is the cipher decoded under one key
//! per stage, with the stages applied in one of their orderings. Every
//! candidate has one slot in a flat list. Slots come in blocks of one slot per
//! ordering; the number of a block is a mixed-radix number whose digits are
//! the indices of the stage keys, the last stage being the most significant.

use crate::cipher::{decode, decrypt, lemma_cell, lemma_decode_keeps_letters, valid_key};
use crate::indexer::{
    checked_factorial, fact, factorial, is_permutation, lemma_fact_monotonic, lemma_fact_positive,
    lemma_nth_permutation_is_permutation, nth_permutation, permutation_from_index,
};
use vstd::arithmetic::div_mod::{lemma_fundamental_div_mod, lemma_fundamental_div_mod_converse};
use vstd::prelude::*;

verus! {

/// Why no candidate list can be made for a list of stage sizes.
#[derive(Clone, Copy, Debug, PartialEq, Eq, Structural)]
pub enum ValidationError {
    /// A stage has no column.
    EmptyStage,
    /// The number of candidates does not fit the machine integer.
    TooManyCandidates,
}

/// The number of ways to choose one key for each stage.
pub open spec fn stage_product(sizes: Seq<usize>) -> nat
    decreases sizes.len(),
{
    if sizes.len() == 0 {
        1
    } else {
        stage_product(sizes.drop_last()) * fact(sizes.last() as nat)
    }
}

/// The number of candidates: one per choice of stage keys and ordering of the
/// stages.
pub open spec fn permutation_count(sizes: Seq<usize>) -> nat {
    fact(sizes.len()) * stage_product(sizes)
}

/// Every stage has at least one column.
pub open spec fn no_empty_stage(sizes: Seq<usize>) -> bool {
    forall|j: int| 0 <= j < sizes.len() ==> #[trigger] sizes[j] >= 1
}

/// The keys as sequences.
pub open spec fn key_views(keys: Seq<Vec<usize>>) -> Seq<Seq<usize>> {
    keys.map_values(|key: Vec<usize>| key@)
}

/// The keys of all stages. `chosen` holds the keys of the stages that follow
/// `remaining`, the last stage first. `offset` chooses the others: its most
/// significant digit is the index of the key of the last remaining stage.
pub open spec fn stage_keys(chosen: Seq<Seq<usize>>, remaining: Seq<usize>, offset: nat) -> Seq<
    Seq<usize>,
>
    decreases remaining.len(),
{
    if remaining.len() == 0 {
        chosen
    } else {
        let rest = remaining.drop_last();
        let length = stage_product(rest);
        stage_keys(
            chosen.push(nth_permutation(remaining.last() as nat, offset / length)),
            rest,
            offset % length,
        )
    }
}

/// The text decoded under `keys[order[0]]`, then under `keys[order[1]]`, and
/// so on.
pub open spec fn decode_stages(text: Seq<char>, keys: Seq<Seq<usize>>, order: Seq<usize>) -> Seq<
    char,
>
    decreases order.len(),
{
    if order.len() == 0 {
        text
    } else {
        decode_stages(decode(text, keys[order[0] as int]), keys, order.drop_first())
    }
}

/// The block of a slot, where a block has one slot per ordering of `stages`
/// keys.
pub open spec fn block_of(slot: int, stages: nat) -> int {
    slot / (fact(stages) as int)
}

/// The index of the ordering of a slot.
pub open spec fn ordering_of(slot: int, stages: nat) -> nat {
    (slot % (fact(stages) as int)) as nat
}

/// Whether a slot lies in one of the blocks that start at block `index` and
/// stand for the choices of the keys of `remaining`.
pub open spec fn owns(remaining: Seq<usize>, index: nat, stages: nat, slot: int) -> bool {
    index <= block_of(slot, stages) < index + stage_product(remaining)
}

/// What stands in a slot once the keys of `remaining` are chosen by the
/// slot's block, counted from block `index`.
pub open spec fn slot_text(
    cipher: Seq<char>,
    chosen: Seq<Seq<usize>>,
    remaining: Seq<usize>,
    index: nat,
    slot: int,
) -> Seq<char> {
    let stages = chosen.len() + remaining.len();
    decode_stages(
        cipher,
        stage_keys(chosen, remaining, (block_of(slot, stages) - index) as nat),
        nth_permutation(stages, ordering_of(slot, stages)),
    )
}

/// The candidate in a slot of the candidate list of `cipher` for the stage
/// sizes `sizes`.
pub open spec fn candidate(cipher: Seq<char>, sizes: Seq<usize>, slot: int) -> Seq<char> {
    slot_text(cipher, Seq::empty(), sizes, 0, slot)
}

/// A choice of one key for each stage: `indices[j]` is the index of the key of
/// stage `j`, below the factorial of its size.
pub open spec fn is_choice(sizes: Seq<usize>, indices: Seq<nat>) -> bool {
    &&& indices.len() == sizes.len()
    &&& forall|j: int| 0 <= j < sizes.len() ==> #[trigger] indices[j] < fact(sizes[j] as nat)
}

/// The keys of a choice, the last stage first.
pub open spec fn chosen_keys(sizes: Seq<usize>, indices: Seq<nat>) -> Seq<Seq<usize>> {
    Seq::new(
        sizes.len(),
        |t: int|
            nth_permutation(sizes[sizes.len() - 1 - t] as nat, indices[sizes.len() - 1 - t]),
    )
}

/// The block of a choice: the number with the digits `indices`, where the
/// digit of a stage counts as often as there are choices for the stages
/// before it.
pub open spec fn block_number(sizes: Seq<usize>, indices: Seq<nat>) -> nat
    decreases sizes.len(),
{
    if sizes.len() == 0 {
        0
    } else {
        indices.last() * stage_product(sizes.drop_last()) + block_number(
            sizes.drop_last(),
            indices.drop_last(),
        )
    }
}

/// The slot of a choice of keys and of an ordering of the stages.
pub open spec fn slot_number(sizes: Seq<usize>, indices: Seq<nat>, ordering: nat) -> nat {
    block_number(sizes, indices) * fact(sizes.len()) + ordering
}

/// A stage product is at least one.
pub proof fn lemma_stage_product_positive(sizes: Seq<usize>)
    ensures
        stage_product(sizes) >= 1,
    decreases sizes.len(),
{
    if sizes.len() > 0 {
        lemma_stage_product_positive(sizes.drop_last());
        lemma_fact_positive(sizes.last() as nat);
        let whole = stage_product(sizes.drop_last());
        let f = fact(sizes.last() as nat);
        assert(whole * f >= 1) by (nonlinear_arith)
            requires
                whole >= 1,
                f >= 1,
        ;
    }
}

/// The stage product grows with every stage: that of a prefix is at most
/// that of the whole list, and so is the factorial of every stage size.
pub proof fn lemma_stage_product_prefix(sizes: Seq<usize>, i: int)
    requires
        0 <= i <= sizes.len(),
    ensures
        1 <= stage_product(sizes.take(i)) <= stage_product(sizes),
        i < sizes.len() ==> fact(sizes[i] as nat) <= stage_product(sizes),
        i < sizes.len() ==> stage_product(sizes.take(i + 1)) == stage_product(sizes.take(i)) * fact(
            sizes[i] as nat,
        ),
    decreases sizes.len() - i,
{
    lemma_stage_product_positive(sizes.take(i));
    if i == sizes.len() {
        assert(sizes.take(i) =~= sizes);
    } else {
        lemma_stage_product_prefix(sizes, i + 1);
        assert(sizes.take(i + 1).drop_last() =~= sizes.take(i));
        lemma_fact_positive(sizes[i] as nat);
        let whole = stage_product(sizes.take(i));
        let f = fact(sizes[i] as nat);
        assert(whole <= whole * f && f <= whole * f) by (nonlinear_arith)
            requires
                whole >= 1,
                f >= 1,
        ;
    }
}

/// Every key of every stage is a key that the cipher accepts, where those
/// already chosen are, no stage is empty, and the offset is below the stage
/// product.
pub proof fn lemma_stage_keys_are_valid(
    chosen: Seq<Seq<usize>>,
    remaining: Seq<usize>,
    offset: nat,
)
    requires
        forall|t: int| 0 <= t < chosen.len() ==> valid_key(#[trigger] chosen[t]),
        no_empty_stage(remaining),
        offset < stage_product(remaining),
    ensures
        stage_keys(chosen, remaining, offset).len() == chosen.len() + remaining.len(),
        forall|t: int|
            0 <= t < chosen.len() + remaining.len() ==> valid_key(
                #[trigger] stage_keys(chosen, remaining, offset)[t],
            ),
    decreases remaining.len(),
{
    if remaining.len() > 0 {
        let rest = remaining.drop_last();
        let size = remaining.last();
        let length = stage_product(rest);
        let ways = fact(size as nat);
        lemma_stage_product_positive(rest);
        assert(remaining[remaining.len() - 1] >= 1);
        let digit = offset / length;
        let below = offset % length;
        assert(digit < ways && below < length) by (nonlinear_arith)
            requires
                length >= 1,
                offset < length * ways,
                digit == offset / length,
                below == offset % length,
        ;
        lemma_nth_permutation_is_permutation(size as nat, digit);
        let next = chosen.push(nth_permutation(size as nat, digit));
        assert forall|t: int| 0 <= t < next.len() implies valid_key(#[trigger] next[t]) by {
            if t < chosen.len() {
                assert(next[t] == chosen[t]);
            }
        }
        assert forall|j: int| 0 <= j < rest.len() implies #[trigger] rest[j] >= 1 by {
            assert(remaining[j] >= 1);
        }
        lemma_stage_keys_are_valid(next, rest, below);
    }
}

/// Decoding under several keys, one after the other, rearranges the
/// characters of the text.
pub proof fn lemma_decode_stages_keeps_letters(
    text: Seq<char>,
    keys: Seq<Seq<usize>>,
    order: Seq<usize>,
)
    requires
        forall|t: int| 0 <= t < keys.len() ==> valid_key(#[trigger] keys[t]),
        forall|j: int| 0 <= j < order.len() ==> #[trigger] order[j] < keys.len(),
    ensures
        decode_stages(text, keys, order).len() == text.len(),
        decode_stages(text, keys, order).to_multiset() == text.to_multiset(),
    decreases order.len(),
{
    if order.len() > 0 {
        assert(order[0] < keys.len());
        let key = keys[order[0] as int];
        lemma_decode_keeps_letters(text, key);
        let rest = order.drop_first();
        assert forall|j: int| 0 <= j < rest.len() implies #[trigger] rest[j] < keys.len() by {
            assert(rest[j] == order[j + 1]);
        }
        lemma_decode_stages_keeps_letters(decode(text, key), keys, rest);
    }
}

/// Every candidate rearranges the characters of the cipher. So a word that
/// holds a letter more often than the cipher does stands in no candidate.
pub proof fn lemma_candidate_keeps_letters(cipher: Seq<char>, sizes: Seq<usize>, slot: int)
    requires
        no_empty_stage(sizes),
        sizes.len() <= usize::MAX,
        0 <= slot < permutation_count(sizes),
    ensures
        candidate(cipher, sizes, slot).len() == cipher.len(),
        candidate(cipher, sizes, slot).to_multiset() == cipher.to_multiset(),
{
    let stages = sizes.len();
    let block = fact(stages) as int;
    let choices = stage_product(sizes) as int;
    lemma_fact_positive(stages);
    let b = slot / block;
    let o = slot % block;
    assert(0 <= b < choices && 0 <= o < block) by (nonlinear_arith)
        requires
            0 <= slot < block * choices,
            block >= 1,
            b == slot / block,
            o == slot % block,
    ;
    let keys = stage_keys(Seq::empty(), sizes, b as nat);
    lemma_stage_keys_are_valid(Seq::empty(), sizes, b as nat);
    let order = nth_permutation(stages, o as nat);
    lemma_nth_permutation_is_permutation(stages, o as nat);
    lemma_decode_stages_keeps_letters(cipher, keys, order);
}

/// The choice of all but the last stage.
proof fn lemma_choice_front(sizes: Seq<usize>, indices: Seq<nat>)
    requires
        is_choice(sizes, indices),
        sizes.len() > 0,
    ensures
        is_choice(sizes.drop_last(), indices.drop_last()),
        indices.last() < fact(sizes.last() as nat),
{
    assert(indices[sizes.len() - 1] < fact(sizes[sizes.len() - 1] as nat));
    assert forall|j: int| 0 <= j < sizes.drop_last().len() implies #[trigger] indices.drop_last()[j]
        < fact(sizes.drop_last()[j] as nat) by {
        assert(indices[j] < fact(sizes[j] as nat));
    }
}

/// The block of a choice is below the stage product.
pub proof fn lemma_block_number_bound(sizes: Seq<usize>, indices: Seq<nat>)
    requires
        is_choice(sizes, indices),
    ensures
        block_number(sizes, indices) < stage_product(sizes),
    decreases sizes.len(),
{
    if sizes.len() > 0 {
        lemma_choice_front(sizes, indices);
        lemma_block_number_bound(sizes.drop_last(), indices.drop_last());
        let digit = indices.last();
        let length = stage_product(sizes.drop_last());
        let ways = fact(sizes.last() as nat);
        let below = block_number(sizes.drop_last(), indices.drop_last());
        assert(digit * length + below < length * ways) by (nonlinear_arith)
            requires
                digit < ways,
                below < length,
        ;
    }
}

/// The keys that the block of a choice stands for are the keys of the
/// choice.
pub proof fn lemma_stage_keys_of_choice(
    chosen: Seq<Seq<usize>>,
    sizes: Seq<usize>,
    indices: Seq<nat>,
)
    requires
        is_choice(sizes, indices),
    ensures
        stage_keys(chosen, sizes, block_number(sizes, indices)) == chosen + chosen_keys(
            sizes,
            indices,
        ),
    decreases sizes.len(),
{
    if sizes.len() == 0 {
        assert(chosen + chosen_keys(sizes, indices) =~= chosen);
    } else {
        let rest = sizes.drop_last();
        let front = indices.drop_last();
        let digit = indices.last();
        let length = stage_product(rest);
        let below = block_number(rest, front);
        lemma_choice_front(sizes, indices);
        lemma_block_number_bound(rest, front);
        lemma_fundamental_div_mod_converse(
            block_number(sizes, indices) as int,
            length as int,
            digit as int,
            below as int,
        );
        let next = chosen.push(nth_permutation(sizes.last() as nat, digit));
        lemma_stage_keys_of_choice(next, rest, front);
        assert(next + chosen_keys(rest, front) =~= chosen + chosen_keys(sizes, indices));
    }
}

/// Every choice of one key per stage and of an ordering of the stages has a
/// slot in the candidate list, which holds the cipher decoded under these keys
/// in this ordering.
pub proof fn lemma_choice_has_slot(
    cipher: Seq<char>,
    sizes: Seq<usize>,
    indices: Seq<nat>,
    ordering: nat,
)
    requires
        is_choice(sizes, indices),
        ordering < fact(sizes.len()),
    ensures
        slot_number(sizes, indices, ordering) < permutation_count(sizes),
        candidate(cipher, sizes, slot_number(sizes, indices, ordering) as int) == decode_stages(
            cipher,
            chosen_keys(sizes, indices),
            nth_permutation(sizes.len(), ordering),
        ),
{
    let stages = sizes.len();
    let block = fact(stages) as int;
    let number = block_number(sizes, indices) as int;
    let choices = stage_product(sizes) as int;
    lemma_block_number_bound(sizes, indices);
    lemma_cell(number, ordering as int, block, choices);
    assert(choices * block == block * choices) by (nonlinear_arith);
    lemma_stage_keys_of_choice(Seq::empty(), sizes, indices);
    assert(Seq::<Seq<usize>>::empty() + chosen_keys(sizes, indices) =~= chosen_keys(
        sizes,
        indices,
    ));
}

/// Two choices with one block are one choice.
pub proof fn lemma_block_number_injective(sizes: Seq<usize>, a: Seq<nat>, b: Seq<nat>)
    requires
        is_choice(sizes, a),
        is_choice(sizes, b),
        block_number(sizes, a) == block_number(sizes, b),
    ensures
        a == b,
    decreases sizes.len(),
{
    if sizes.len() == 0 {
        assert(a =~= b);
    } else {
        let rest = sizes.drop_last();
        let length = stage_product(rest);
        lemma_choice_front(sizes, a);
        lemma_choice_front(sizes, b);
        lemma_block_number_bound(rest, a.drop_last());
        lemma_block_number_bound(rest, b.drop_last());
        lemma_fundamental_div_mod_converse(
            block_number(sizes, a) as int,
            length as int,
            a.last() as int,
            block_number(rest, a.drop_last()) as int,
        );
        lemma_fundamental_div_mod_converse(
            block_number(sizes, b) as int,
            length as int,
            b.last() as int,
            block_number(rest, b.drop_last()) as int,
        );
        lemma_block_number_injective(rest, a.drop_last(), b.drop_last());
        assert(a =~= a.drop_last().push(a.last()));
        assert(b =~= b.drop_last().push(b.last()));
    }
}

/// Two choices of keys and orderings with one slot are one choice: no slot
/// stands for two.
pub proof fn lemma_slot_number_injective(
    sizes: Seq<usize>,
    a: Seq<nat>,
    first: nat,
    b: Seq<nat>,
    second: nat,
)
    requires
        is_choice(sizes, a),
        is_choice(sizes, b),
        first < fact(sizes.len()),
        second < fact(sizes.len()),
        slot_number(sizes, a, first) == slot_number(sizes, b, second),
    ensures
        a == b,
        first == second,
{
    let block = fact(sizes.len()) as int;
    lemma_block_number_bound(sizes, a);
    lemma_block_number_bound(sizes, b);
    lemma_fundamental_div_mod_converse(
        slot_number(sizes, a, first) as int,
        block,
        block_number(sizes, a) as int,
        first as int,
    );
    lemma_fundamental_div_mod_converse(
        slot_number(sizes, b, second) as int,
        block,
        block_number(sizes, b) as int,
        second as int,
    );
    lemma_block_number_injective(sizes, a, b);
}

/// The number of ways to choose one key for each stage, or `None` where it
/// does not fit the machine integer.
pub fn checked_stage_count(n: &Vec<usize>) -> (count: Option<usize>)
    ensures
        count matches Some(value) ==> value == stage_product(n@),
        count is None <==> stage_product(n@) > usize::MAX,
{
    let mut product: usize = 1;
    let mut i: usize = 0;
    assert(n@.take(0) =~= Seq::<usize>::empty());
    while i < n.len()
        invariant
            i <= n@.len(),
            product == stage_product(n@.take(i as int)),
        decreases n.len() - i,
    {
        proof {
            lemma_stage_product_prefix(n@, i as int);
            lemma_stage_product_prefix(n@, i + 1);
        }
        let ways = match checked_factorial(n[i]) {
            Some(ways) => ways,
            None => {
                return None;
            },
        };
        product = match product.checked_mul(ways) {
            Some(next) => next,
            None => {
                return None;
            },
        };
        i = i + 1;
    }
    assert(n@.take(i as int) =~= n@);
    Some(product)
}

/// The number of candidates for the stage sizes `n`, or `None` where it does
/// not fit the machine integer.
pub fn checked_permutations_length(n: &Vec<usize>) -> (count: Option<usize>)
    ensures
        count matches Some(value) ==> value == permutation_count(n@),
        count is None <==> permutation_count(n@) > usize::MAX,
{
    proof {
        lemma_fact_positive(n@.len());
        lemma_stage_product_prefix(n@, 0);
        let f = fact(n@.len());
        let s = stage_product(n@);
        assert(f <= f * s && s <= f * s) by (nonlinear_arith)
            requires
                f >= 1,
                s >= 1,
        ;
    }
    let orderings = match checked_factorial(n.len()) {
        Some(orderings) => orderings,
        None => {
            return None;
        },
    };
    let choices = match checked_stage_count(n) {
        Some(choices) => choices,
        None => {
            return None;
        },
    };
    orderings.checked_mul(choices)
}

/// The number of candidates for the stage sizes `n`.
pub fn permutations_length(n: &Vec<usize>) -> (count: usize)
    requires
        permutation_count(n@) <= usize::MAX,
    ensures
        count == permutation_count(n@),
{
    match checked_permutations_length(n) {
        Some(count) => count,
        None => vstd::pervasive::unreached(),
    }
}

/// A copy of the keys.
fn copy_keys(keys: &Vec<Vec<usize>>) -> (copy: Vec<Vec<usize>>)
    ensures
        key_views(copy@) == key_views(keys@),
{
    let mut copy: Vec<Vec<usize>> = Vec::new();
    let mut i: usize = 0;
    while i < keys.len()
        invariant
            i <= keys@.len(),
            copy@.len() == i,
            forall|t: int| 0 <= t < i ==> (#[trigger] copy@[t])@ == keys@[t]@,
        decreases keys.len() - i,
    {
        let key = keys[i].clone();
        assert(key@ =~= keys@[i as int]@);
        copy.push(key);
        i = i + 1;
    }
    assert(key_views(copy@) =~= key_views(keys@));
    copy
}

/// The stage sizes without the last.
fn front_stages(n: &Vec<usize>) -> (front: Vec<usize>)
    requires
        n@.len() > 0,
    ensures
        front@ == n@.drop_last(),
{
    let mut front: Vec<usize> = Vec::new();
    let mut i: usize = 0;
    while i < n.len() - 1
        invariant
            i + 1 <= n@.len(),
            front@ == n@.take(i as int),
        decreases n.len() - i,
    {
        front.push(n[i]);
        assert(front@ =~= n@.take(i + 1));
        i = i + 1;
    }
    assert(front@ =~= n@.drop_last());
    front
}

/// Fills the blocks of `out` that start at block `index` and stand for the
/// choices of the keys of the stages `n`, given the keys of the stages after
/// them in `permutations`, the last stage first. Every other slot keeps what
/// it holds.
pub fn generate_permutations(
    cipher: &String,
    out: &mut Vec<String>,
    permutations: Vec<Vec<usize>>,
    n: &Vec<usize>,
    index: usize,
)
    requires
        no_empty_stage(n@),
        forall|t: int| 0 <= t < permutations@.len() ==> valid_key(#[trigger] permutations@[t]@),
        (index + stage_product(n@)) * fact(permutations@.len() + n@.len()) <= old(out)@.len(),
    ensures
        final(out)@.len() == old(out)@.len(),
        forall|x: int|
            0 <= x < old(out)@.len() && owns(n@, index as nat, permutations@.len() + n@.len(), x)
                ==> (#[trigger] final(out)@[x])@ == slot_text(
                cipher@,
                key_views(permutations@),
                n@,
                index as nat,
                x,
            ),
        forall|x: int|
            0 <= x < old(out)@.len() && !owns(n@, index as nat, permutations@.len() + n@.len(), x)
                ==> #[trigger] final(out)@[x] == old(out)@[x],
    decreases n@.len(),
{
    let ghost before = out@;
    let ghost keys = key_views(permutations@);
    let ghost stages = permutations@.len() + n@.len();
    let ghost block = fact(stages) as int;
    proof {
        assert(out@.len() == out.len());
        lemma_fact_positive(stages);
        lemma_stage_product_prefix(n@, 0);
        let s = stage_product(n@) as int;
        assert(block <= (index + s) * block && index + s <= (index + s) * block) by (nonlinear_arith)
            requires
                block >= 1,
                s >= 1,
                index >= 0,
        ;
    }
    if n.len() == 0 {
        let count = permutations.len();
        let combinations = factorial(count);
        let mut i: usize = 0;
        while i < combinations
            invariant
                i <= combinations,
                combinations == fact(count as nat),
                block == combinations,
                count == permutations@.len(),
                stages == count,
                n@.len() == 0,
                keys == key_views(permutations@),
                forall|t: int|
                    0 <= t < permutations@.len() ==> valid_key(#[trigger] permutations@[t]@),
                (index + 1) * combinations <= before.len(),
                before.len() <= usize::MAX,
                out@.len() == before.len(),
                forall|x: int|
                    0 <= x < before.len() && block_of(x, stages) == index && ordering_of(x, stages)
                        < i ==> (#[trigger] out@[x])@ == decode_stages(
                        cipher@,
                        keys,
                        nth_permutation(stages, ordering_of(x, stages)),
                    ),
                forall|x: int|
                    0 <= x < before.len() && !(block_of(x, stages) == index && ordering_of(
                        x,
                        stages,
                    ) < i) ==> #[trigger] out@[x] == before[x],
            decreases combinations - i,
        {
            proof {
                if count >= 1 {
                    lemma_fact_monotonic((count - 1) as nat, count as nat);
                }
            }
            let order = permutation_from_index(count, i);
            let mut string = cipher.clone();
            let mut j: usize = 0;
            assert(order@.skip(0) =~= order@);
            while j < count
                invariant
                    j <= count,
                    order@.len() == count,
                    is_permutation(order@),
                    count == permutations@.len(),
                    keys == key_views(permutations@),
                    forall|t: int|
                        0 <= t < permutations@.len() ==> valid_key(#[trigger] permutations@[t]@),
                    decode_stages(cipher@, keys, order@) == decode_stages(
                        string@,
                        keys,
                        order@.skip(j as int),
                    ),
                decreases count - j,
            {
                let stage = order[j];
                proof {
                    assert(order@[j as int] < order@.len());
                    let rest = order@.skip(j as int);
                    assert(rest[0] == stage);
                    assert(rest.drop_first() =~= order@.skip(j + 1));
                    assert(keys[stage as int] == permutations@[stage as int]@);
                }
                string = decrypt(&string, &permutations[stage]);
                j = j + 1;
            }
            proof {
                assert(order@.skip(count as int).len() == 0);
                lemma_cell(index as int, i as int, combinations as int, index + 1);
            }
            let slot = index * combinations + i;
            let ghost filled = out@;
            out.set(slot, string);
            proof {
                assert forall|x: int|
                    0 <= x < before.len() && block_of(x, stages) == index && ordering_of(x, stages)
                        < i + 1 implies (#[trigger] out@[x])@ == decode_stages(
                    cipher@,
                    keys,
                    nth_permutation(stages, ordering_of(x, stages)),
                ) by {
                    lemma_fundamental_div_mod(x, block);
                    if ordering_of(x, stages) == i {
                        assert(block * index == index * block) by (nonlinear_arith);
                        assert(x == slot);
                    } else {
                        assert(out@[x] == filled[x]);
                    }
                }
                assert forall|x: int|
                    0 <= x < before.len() && !(block_of(x, stages) == index && ordering_of(
                        x,
                        stages,
                    ) < i + 1) implies #[trigger] out@[x] == before[x] by {
                    assert(x != slot);
                    assert(out@[x] == filled[x]);
                }
            }
            i = i + 1;
        }
        proof {
            assert forall|x: int|
                0 <= x < before.len() && owns(n@, index as nat, stages, x) implies (
            #[trigger] out@[x])@ == slot_text(cipher@, keys, n@, index as nat, x) by {
                lemma_fundamental_div_mod(x, block);
            }
            assert forall|x: int|
                0 <= x < before.len() && !owns(n@, index as nat, stages, x) implies #[trigger] out@[x]
                == before[x] by {
                lemma_fundamental_div_mod(x, block);
            }
        }
        return ;
    }
    let size = n[n.len() - 1];
    let front = front_stages(n);
    proof {
        lemma_stage_product_prefix(n@, n@.len() - 1);
        assert(n@.take(n@.len() - 1) =~= front@);
        lemma_stage_product_prefix(front@, 0);
        assert forall|j: int| 0 <= j < front@.len() implies #[trigger] front@[j] >= 1 by {
            assert(n@[j] >= 1);
        }
        if size >= 1 {
            lemma_fact_monotonic((size - 1) as nat, size as nat);
        }
    }
    let length = match checked_stage_count(&front) {
        Some(length) => length,
        None => vstd::pervasive::unreached(),
    };
    let choices = factorial(size);
    let mut i: usize = 0;
    proof {
        assert(i * length == 0) by (nonlinear_arith)
            requires
                i == 0,
        ;
    }
    while i < choices
        invariant
            i <= choices,
            choices == fact(size as nat),
            length == stage_product(front@),
            length >= 1,
            n@.len() > 0,
            size == n@.last(),
            size >= 1,
            fact((size - 1) as nat) <= usize::MAX,
            front@ == n@.drop_last(),
            no_empty_stage(front@),
            stage_product(n@) == length * choices,
            stages == permutations@.len() + n@.len(),
            block == fact(stages),
            block >= 1,
            keys == key_views(permutations@),
            forall|t: int| 0 <= t < permutations@.len() ==> valid_key(#[trigger] permutations@[t]@),
            (index + stage_product(n@)) * block <= before.len(),
            index + stage_product(n@) <= before.len(),
            before.len() <= usize::MAX,
            out@.len() == before.len(),
            forall|x: int|
                0 <= x < before.len() && index <= block_of(x, stages) < index + i * length ==> (
                #[trigger] out@[x])@ == slot_text(cipher@, keys, n@, index as nat, x),
            forall|x: int|
                0 <= x < before.len() && !(index <= block_of(x, stages) < index + i * length)
                    ==> #[trigger] out@[x] == before[x],
        decreases choices - i,
    {
        let key = permutation_from_index(size, i);
        let mut chosen = copy_keys(&permutations);
        chosen.push(key);
        proof {
            assert(key_views(chosen@) =~= keys.push(nth_permutation(size as nat, i as nat)));
            assert forall|t: int| 0 <= t < chosen@.len() implies valid_key(
                #[trigger] chosen@[t]@,
            ) by {
                if t < permutations@.len() {
                    assert(key_views(chosen@)[t] == keys[t]);
                    assert(valid_key(permutations@[t]@));
                }
            }
            assert(i * length + length <= choices * length && i * length >= 0
                && choices * length == length * choices) by (nonlinear_arith)
                requires
                    0 <= i < choices,
                    length >= 1,
            ;
            let top = index + i * length + length;
            let all = index + stage_product(n@);
            assert(top * block <= all * block) by (nonlinear_arith)
                requires
                    0 <= top <= all,
                    block >= 1,
            ;
        }
        let start = index + i * length;
        let ghost filled = out@;
        generate_permutations(cipher, out, chosen, &front, start);
        proof {
            assert forall|x: int|
                0 <= x < before.len() && index <= block_of(x, stages) < index + (i + 1)
                    * length implies (#[trigger] out@[x])@ == slot_text(
                cipher@,
                keys,
                n@,
                index as nat,
                x,
            ) by {
                assert((i + 1) * length == i * length + length) by (nonlinear_arith);
                let b = block_of(x, stages) - index;
                if b >= i * length {
                    assert(owns(front@, start as nat, stages, x));
                    lemma_fundamental_div_mod_converse(b, length as int, i as int, b - i * length);
                    assert(block_of(x, stages) - start == b - i * length);
                } else {
                    assert(!owns(front@, start as nat, stages, x));
                    assert(out@[x] == filled[x]);
                }
            }
            assert forall|x: int|
                0 <= x < before.len() && !(index <= block_of(x, stages) < index + (i + 1)
                    * length) implies #[trigger] out@[x] == before[x] by {
                assert((i + 1) * length == i * length + length) by (nonlinear_arith);
                assert(!owns(front@, start as nat, stages, x));
                assert(out@[x] == filled[x]);
            }
        }
        i = i + 1;
    }
    proof {
        assert(i * length == length * choices) by (nonlinear_arith)
            requires
                i == choices,
        ;
    }
}

/// The candidate list of `cipher` for the stage sizes `columns`: slot `x`
/// holds `candidate(cipher, columns, x)`.
pub fn create_list(cipher: &String, columns: &Vec<usize>) -> (list: Result<
    Vec<String>,
    ValidationError,
>)
    ensures
        list is Ok <==> no_empty_stage(columns@) && permutation_count(columns@) <= usize::MAX,
        list == Err::<Vec<String>, ValidationError>(ValidationError::EmptyStage)
            <==> !no_empty_stage(columns@),
        list matches Ok(candidates) ==> {
            &&& candidates@.len() == permutation_count(columns@)
            &&& forall|x: int|
                0 <= x < candidates@.len() ==> (#[trigger] candidates@[x])@ == candidate(
                    cipher@,
                    columns@,
                    x,
                )
        },
{
    let mut j: usize = 0;
    while j < columns.len()
        invariant
            j <= columns@.len(),
            forall|t: int| 0 <= t < j ==> #[trigger] columns@[t] >= 1,
        decreases columns.len() - j,
    {
        if columns[j] == 0 {
            return Err(ValidationError::EmptyStage);
        }
        j = j + 1;
    }
    let total = match checked_permutations_length(columns) {
        Some(total) => total,
        None => {
            return Err(ValidationError::TooManyCandidates);
        },
    };
    let mut list: Vec<String> = vec![String::new(); total];
    proof {
        assert(fact(columns@.len()) * stage_product(columns@) == (0 + stage_product(columns@))
            * fact(columns@.len())) by (nonlinear_arith);
    }
    let ghost stages = columns@.len();
    generate_permutations(cipher, &mut list, Vec::new(), columns, 0);
    proof {
        assert(key_views(Seq::<Vec<usize>>::empty()) =~= Seq::<Seq<usize>>::empty());
        assert forall|x: int| 0 <= x < list@.len() implies (#[trigger] list@[x])@ == candidate(
            cipher@,
            columns@,
            x,
        ) by {
            lemma_fact_positive(stages);
            let block = fact(stages) as int;
            lemma_fundamental_div_mod(x, block);
            let q = x / block;
            let s = stage_product(columns@) as int;
            assert(0 <= q < s) by (nonlinear_arith)
                requires
                    0 <= x < block * s,
                    block >= 1,
                    x == block * q + x % block,
                    0 <= x % block < block,
            ;
            assert(owns(columns@, 0, stages, x));
        }
    }
    Ok(list)
}

} // verus!
