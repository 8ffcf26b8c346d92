//! Shuffling by a list of draws.
//!
//! A list of draws holds one position for every place of a list: the draw
//! for place `i` is a position from `0` to `i`. The walk goes from the last
//! place down to the first and lets each place trade its item with the item
//! at its drawn position. Every order of a list of distinct items comes from
//! exactly one list of draws, so draws made evenly give every order equally
//! often. A seeded generator, SplitMix64, is one way to make the draws.

use vstd::prelude::*;
use vstd::arithmetic::div_mod::lemma_mod_pos_bound;
use vstd::seq_lib::to_multiset_update;

verus! {

/// `s` with the items at `i` and `j` trading places.
pub open spec fn swapped<T>(s: Seq<T>, i: int, j: int) -> Seq<T> {
    s.update(i, s[j]).update(j, s[i])
}

/// Whether `draws` holds one draw for each of `n` places, the draw for place
/// `i` being a position from `0` to `i`.
pub open spec fn valid_draws(draws: Seq<int>, n: nat) -> bool {
    draws.len() == n && forall|i: int| 0 <= i < n ==> 0 <= #[trigger] draws[i] <= i
}

/// The draws of a list of machine integers as positions.
pub open spec fn positions(draws: Seq<usize>) -> Seq<int> {
    Seq::new(draws.len(), |i: int| draws[i] as int)
}

/// `s` shuffled by `draws`: the last place gets the item at its drawn
/// position, and the item it held takes that position among the others,
/// which are shuffled by the draws that remain.
pub open spec fn shuffled<T>(s: Seq<T>, draws: Seq<int>) -> Seq<T>
    decreases s.len(),
    when valid_draws(draws, s.len())
{
    if s.len() == 0 {
        s
    } else {
        let last = s.len() - 1;
        shuffled(swapped(s, last, draws[last]).drop_last(), draws.drop_last()).push(
            s[draws[last]],
        )
    }
}

/// Shuffles `items` in place by `draws`, and says whether it did: a list of
/// draws that is not valid for the length of `items` leaves them as they
/// were.
pub fn shuffle<T: Copy>(items: &mut Vec<T>, draws: &Vec<usize>) -> (done: bool)
    ensures
        done == valid_draws(positions(draws@), old(items)@.len()),
        done ==> final(items)@ == shuffled(old(items)@, positions(draws@)),
        !done ==> final(items)@ == old(items)@,
{
    if draws.len() != items.len() {
        return false;
    }
    let ghost drawn = positions(draws@);
    let mut i: usize = 0;
    while i < draws.len()
        invariant
            i <= draws.len(),
            drawn == positions(draws@),
            draws.len() == items.len(),
            items@ == old(items)@,
            forall|k: int| 0 <= k < i ==> 0 <= #[trigger] drawn[k] <= k,
        decreases draws.len() - i,
    {
        if draws[i] > i {
            assert(!(drawn[i as int] <= i));
            return false;
        }
        i += 1;
    }
    let mut k: usize = items.len();
    assert(items@.take(k as int) =~= items@ && drawn.take(k as int) =~= drawn);
    assert(items@.skip(k as int) =~= Seq::<T>::empty());
    assert(shuffled(items@, drawn) =~= shuffled(items@, drawn) + Seq::<T>::empty());
    while k > 0
        invariant
            k <= items.len(),
            items.len() == old(items).len(),
            draws.len() == items.len(),
            drawn == positions(draws@),
            valid_draws(drawn, items.len() as nat),
            shuffled(old(items)@, drawn) == shuffled(items@.take(k as int), drawn.take(k as int))
                + items@.skip(k as int),
        decreases k,
    {
        let i: usize = k - 1;
        let j: usize = draws[i];
        assert(j == drawn[i as int]);
        let ghost before = items@;
        let upper = items[i];
        let lower = items[j];
        items.set(i, lower);
        items.set(j, upper);
        proof {
            let part = before.take(k as int);
            let part_draws = drawn.take(k as int);
            assert(valid_draws(part_draws, part.len()));
            assert(items@ =~= swapped(before, i as int, j as int));
            assert(items@.take(i as int) =~= swapped(part, i as int, j as int).drop_last());
            assert(drawn.take(i as int) =~= part_draws.drop_last());
            assert(items@.skip(i as int) =~= seq![part[j as int]] + before.skip(k as int));
            assert(shuffled(part, part_draws) + before.skip(k as int) =~= shuffled(
                items@.take(i as int),
                drawn.take(i as int),
            ) + items@.skip(i as int));
        }
        k -= 1;
    }
    assert(items@.take(0) =~= Seq::<T>::empty() && drawn.take(0) =~= Seq::<int>::empty());
    assert(items@.skip(0) =~= items@);
    true
}

/// Trading two places keeps every item, each as often as before.
pub proof fn lemma_swapped_keeps_items<T>(s: Seq<T>, i: int, j: int)
    requires
        0 <= i < s.len(),
        0 <= j < s.len(),
    ensures
        swapped(s, i, j).len() == s.len(),
        swapped(s, i, j).to_multiset() == s.to_multiset(),
{
    broadcast use vstd::multiset::group_multiset_axioms;

    let half = s.update(i, s[j]);
    assert(half.len() == s.len());
    assert(half[j] == s[j]);
    to_multiset_update(s, i, s[j]);
    to_multiset_update(half, j, s[i]);
    s.to_multiset_ensures();
    assert(s.contains(s[i]) && s.contains(s[j]));
    assert(swapped(s, i, j).to_multiset() =~= s.to_multiset());
}

/// Trading two places of a list of distinct items leaves the items distinct.
pub proof fn lemma_swapped_keeps_distinct<T>(s: Seq<T>, i: int, j: int)
    requires
        s.no_duplicates(),
        0 <= i < s.len(),
        0 <= j < s.len(),
    ensures
        swapped(s, i, j).no_duplicates(),
        swapped(s, i, j).drop_last().no_duplicates(),
{
    lemma_swapped_keeps_items(s, i, j);
    s.lemma_multiset_has_no_duplicates();
    swapped(s, i, j).lemma_multiset_has_no_duplicates_conv();
}

/// A shuffle is a rearrangement: whatever the draws, the result has the
/// length of the input and holds every item exactly as often as the input
/// does.
pub proof fn lemma_shuffled_is_rearrangement<T>(s: Seq<T>, draws: Seq<int>)
    requires
        valid_draws(draws, s.len()),
    ensures
        shuffled(s, draws).len() == s.len(),
        shuffled(s, draws).to_multiset() == s.to_multiset(),
    decreases s.len(),
{
    broadcast use vstd::multiset::group_multiset_axioms;

    if s.len() > 0 {
        let last = s.len() - 1;
        let j = draws[last];
        let traded = swapped(s, last, j);
        let rest = traded.drop_last();
        lemma_swapped_keeps_items(s, last, j);
        assert(valid_draws(draws.drop_last(), rest.len()));
        lemma_shuffled_is_rearrangement(rest, draws.drop_last());
        assert(traded =~= rest.push(s[j]));
        vstd::seq_lib::to_multiset_build(rest, s[j]);
        vstd::seq_lib::to_multiset_build(shuffled(rest, draws.drop_last()), s[j]);
    }
}

/// A shuffle of distinct items visits each of them exactly once: the result
/// has no duplicates and holds the same items as the input.
pub proof fn lemma_shuffled_visits_once<T>(s: Seq<T>, draws: Seq<int>)
    requires
        s.no_duplicates(),
        valid_draws(draws, s.len()),
    ensures
        shuffled(s, draws).no_duplicates(),
        forall|x: T| shuffled(s, draws).contains(x) <==> s.contains(x),
{
    lemma_shuffled_is_rearrangement(s, draws);
    s.lemma_multiset_has_no_duplicates();
    shuffled(s, draws).lemma_multiset_has_no_duplicates_conv();
    s.to_multiset_ensures();
    shuffled(s, draws).to_multiset_ensures();
    assert forall|x: T| shuffled(s, draws).contains(x) <==> s.contains(x) by {
        assert(shuffled(s, draws).to_multiset().count(x) == s.to_multiset().count(x));
    }
}

/// For every order of a list of distinct items there is a list of draws that
/// shuffles the list into that order. The lemma hands the draws out.
pub proof fn lemma_draws_for_order<T>(s: Seq<T>, order: Seq<T>) -> (draws: Seq<int>)
    requires
        s.no_duplicates(),
        order.to_multiset() == s.to_multiset(),
    ensures
        valid_draws(draws, s.len()),
        shuffled(s, draws) == order,
    decreases s.len(),
{
    broadcast use vstd::multiset::group_multiset_axioms;

    s.to_multiset_ensures();
    order.to_multiset_ensures();
    assert(order.len() == s.len());
    if s.len() == 0 {
        assert(order =~= s);
        Seq::empty()
    } else {
        let last = s.len() - 1;
        let x = order[last];
        assert(order.contains(x));
        assert(s.to_multiset().count(x) > 0);
        assert(s.contains(x));
        let j = choose|j: int| 0 <= j < s.len() && s[j] == x;
        let traded = swapped(s, last, j);
        let rest = traded.drop_last();
        let front = order.drop_last();
        lemma_swapped_keeps_items(s, last, j);
        lemma_swapped_keeps_distinct(s, last, j);
        assert(traded =~= rest.push(x));
        assert(order =~= front.push(x));
        vstd::seq_lib::to_multiset_build(rest, x);
        vstd::seq_lib::to_multiset_build(front, x);
        assert(front.to_multiset() =~= front.to_multiset().insert(x).remove(x));
        assert(rest.to_multiset() =~= rest.to_multiset().insert(x).remove(x));
        let shorter = lemma_draws_for_order(rest, front);
        let draws = shorter.push(j);
        assert(draws.drop_last() =~= shorter);
        assert(valid_draws(draws, s.len()));
        assert(shuffled(s, draws) =~= order);
        draws
    }
}

/// Two lists of draws that shuffle a list of distinct items into the same
/// order are the same list.
pub proof fn lemma_draws_are_unique<T>(s: Seq<T>, first: Seq<int>, second: Seq<int>)
    requires
        s.no_duplicates(),
        valid_draws(first, s.len()),
        valid_draws(second, s.len()),
        shuffled(s, first) == shuffled(s, second),
    ensures
        first == second,
    decreases s.len(),
{
    if s.len() == 0 {
        assert(first =~= second);
    } else {
        let last = s.len() - 1;
        let j = first[last];
        let rest = swapped(s, last, j).drop_last();
        let by_first = shuffled(rest, first.drop_last());
        assert(shuffled(s, first) == by_first.push(s[j]));
        assert(shuffled(s, first).last() == s[j]);
        assert(shuffled(s, second).last() == s[second[last]]);
        assert(second[last] == j);
        let by_second = shuffled(rest, second.drop_last());
        assert(shuffled(s, second) == by_second.push(s[j]));
        assert(by_first =~= by_first.push(s[j]).drop_last());
        assert(by_second =~= by_second.push(s[j]).drop_last());
        lemma_swapped_keeps_distinct(s, last, j);
        assert(valid_draws(first.drop_last(), rest.len()));
        assert(valid_draws(second.drop_last(), rest.len()));
        lemma_draws_are_unique(rest, first.drop_last(), second.drop_last());
        assert(first =~= first.drop_last().push(j));
        assert(second =~= second.drop_last().push(j));
    }
}

/// Every order of a list of distinct items comes from exactly one list of
/// draws: there is a valid list that shuffles the items into that order, and
/// no second one does. Draws made evenly and independently of each other
/// therefore give every order equally often.
pub proof fn lemma_every_order_has_one_list_of_draws<T>(s: Seq<T>, order: Seq<T>)
    requires
        s.no_duplicates(),
        order.to_multiset() == s.to_multiset(),
    ensures
        exists|draws: Seq<int>|
            valid_draws(draws, s.len()) && #[trigger] shuffled(s, draws) == order,
        forall|first: Seq<int>, second: Seq<int>|
            valid_draws(first, s.len()) && valid_draws(second, s.len()) && #[trigger] shuffled(
                s,
                first,
            ) == order && #[trigger] shuffled(s, second) == order ==> first == second,
{
    let draws = lemma_draws_for_order(s, order);
    assert(valid_draws(draws, s.len()) && shuffled(s, draws) == order);
    assert forall|first: Seq<int>, second: Seq<int>|
        valid_draws(first, s.len()) && valid_draws(second, s.len()) && #[trigger] shuffled(
            s,
            first,
        ) == order && #[trigger] shuffled(s, second) == order implies first == second by {
        lemma_draws_are_unique(s, first, second);
    }
}

/// The step of the generator from one state to the next.
pub const GOLDEN_STEP: u64 = 0x9E37_79B9_7F4A_7C15;

/// The generator's state after `steps` draws from the seed `seed`.
pub open spec fn state_after(seed: u64, steps: u64) -> u64 {
    seed.wrapping_add(steps.wrapping_mul(GOLDEN_STEP))
}

/// The number that the generator hands out in state `state`.
pub open spec fn scramble(state: u64) -> u64 {
    let a: u64 = (state ^ (state >> 30)).wrapping_mul(0xBF58_476D_1CE4_E5B9);
    let b: u64 = (a ^ (a >> 27)).wrapping_mul(0x94D0_49BB_1331_11EB);
    b ^ (b >> 31)
}

/// The draw that the seed `seed` gives place `i` of `n`. The last place gets
/// the generator's first number, the place before it the second, and so on;
/// each number is reduced to the positions `0..=i`.
pub open spec fn seeded_draw(n: nat, seed: u64, i: int) -> int {
    scramble(state_after(seed, (n - i) as u64)) as int % (i + 1)
}

/// The draws that the seed `seed` gives a list of `n` places.
pub open spec fn seeded_draws(n: nat, seed: u64) -> Seq<int> {
    Seq::new(n, |i: int| seeded_draw(n, seed, i))
}

/// Whatever the seed, the draws it gives are valid.
pub proof fn lemma_seeded_draws_are_valid(n: nat, seed: u64)
    ensures
        valid_draws(seeded_draws(n, seed), n),
{
    assert forall|i: int| 0 <= i < n implies 0 <= #[trigger] seeded_draws(n, seed)[i] <= i by {
        lemma_mod_pos_bound(scramble(state_after(seed, (n - i) as u64)) as int, i + 1);
    }
}

fn draw(state: u64) -> (value: u64)
    ensures
        value == scramble(state),
{
    let a: u64 = (state ^ (state >> 30)).wrapping_mul(0xBF58_476D_1CE4_E5B9);
    let b: u64 = (a ^ (a >> 27)).wrapping_mul(0x94D0_49BB_1331_11EB);
    b ^ (b >> 31)
}

/// Makes the draws for a list of `len` places from the seed `seed`. The same
/// seed always gives the same draws, and they are always valid.
pub fn draws_from_seed(len: usize, seed: u64) -> (draws: Vec<usize>)
    ensures
        positions(draws@) == seeded_draws(len as nat, seed),
        valid_draws(positions(draws@), len as nat),
{
    let mut draws: Vec<usize> = Vec::new();
    let mut i: usize = 0;
    while i < len
        invariant
            i <= len,
            draws.len() == i,
            forall|k: int| 0 <= k < i ==> draws@[k] as int == seeded_draw(len as nat, seed, k),
            forall|k: int| 0 <= k < i ==> 0 <= #[trigger] draws@[k] <= k,
        decreases len - i,
    {
        let state: u64 = seed.wrapping_add(((len - i) as u64).wrapping_mul(GOLDEN_STEP));
        let number: u64 = draw(state);
        proof {
            lemma_mod_pos_bound(number as int, i as int + 1);
        }
        let position: usize = (number % (i as u64 + 1)) as usize;
        draws.push(position);
        i += 1;
    }
    assert(positions(draws@) =~= seeded_draws(len as nat, seed));
    draws
}

} // verus!
