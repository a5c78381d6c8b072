//! Chance.
use vstd::prelude::*;

verus! {

/// A source of chance. Nothing is known of what comes up.
pub trait Coin {
    fn flip(&mut self) -> bool;
}

/// How often to go through the items before giving up.
pub const MAX_ROUNDS: usize = 1_001;

/// Whether the `i`-th item is picked.
pub open spec fn is_picked(picks: Seq<bool>, i: int) -> bool {
    0 <= i < picks.len() && picks[i]
}

/// The items that are picked.
pub open spec fn picked<T>(items: Seq<T>, picks: Seq<bool>) -> Seq<T>
    decreases items.len(),
{
    if items.len() == 0 {
        seq![]
    } else {
        let front = picked(items.drop_last(), picks);
        if is_picked(picks, items.len() - 1) {
            front.push(items.last())
        } else {
            front
        }
    }
}

/// The items that are left.
pub open spec fn left_over<T>(items: Seq<T>, picks: Seq<bool>) -> Seq<T>
    decreases items.len(),
{
    if items.len() == 0 {
        seq![]
    } else {
        let front = left_over(items.drop_last(), picks);
        if is_picked(picks, items.len() - 1) {
            front
        } else {
            front.push(items.last())
        }
    }
}

/// No item is lost, and none is made up.
proof fn lemma_parted<T>(items: Seq<T>, picks: Seq<bool>)
    ensures
        picked(items, picks).to_multiset().add(left_over(items, picks).to_multiset())
            == items.to_multiset(),
    decreases items.len(),
{
    broadcast use vstd::seq_lib::group_to_multiset_ensures;

    if items.len() == 0 {
        assert(picked(items, picks).to_multiset().add(left_over(items, picks).to_multiset())
            =~= items.to_multiset());
    } else {
        lemma_parted(items.drop_last(), picks);
        assert(items =~= items.drop_last().push(items.last()));
        assert(picked(items, picks).to_multiset().add(left_over(items, picks).to_multiset())
            =~= items.to_multiset());
    }
}

/// Moves the items that are picked behind those in `new`, in their order, and gives those
/// that are left.
pub fn part<T>(items: Vec<T>, picks: &Vec<bool>, new: &mut Vec<T>) -> (left: Vec<T>)
    ensures
        final(new)@ == old(new)@ + picked(items@, picks@),
        left@ == left_over(items@, picks@),
{
    let ghost all = items@;
    let ghost before = new@;
    // Taken from the end, one at a time.
    let mut items: Vec<T> = items;
    let mut moved: Vec<T> = Vec::new();
    let mut kept: Vec<T> = Vec::new();
    assert(all.take(all.len() as int) =~= all);
    assert(picked(all, picks@) =~= picked(all, picks@) + moved@.reverse());
    assert(left_over(all, picks@) =~= left_over(all, picks@) + kept@.reverse());
    while items.len() > 0
        invariant
            items@.len() <= all.len(),
            items@ == all.take(items@.len() as int),
            picked(all, picks@) == picked(items@, picks@) + moved@.reverse(),
            left_over(all, picks@) == left_over(items@, picks@) + kept@.reverse(),
        decreases items@.len(),
    {
        let ghost now = items@;
        let ghost (m, k) = (moved@, kept@);
        let i: usize = items.len() - 1;
        if let Some(x) = items.pop() {
            assert(now.drop_last() =~= items@);
            assert(items@ =~= all.take(items@.len() as int));
            if i < picks.len() && picks[i] {
                moved.push(x);
                assert(picked(now, picks@) + m.reverse() =~= picked(items@, picks@)
                    + moved@.reverse());
            } else {
                kept.push(x);
                assert(left_over(now, picks@) + k.reverse() =~= left_over(items@, picks@)
                    + kept@.reverse());
            }
        }
    }
    assert(picked(all, picks@) =~= moved@.reverse());
    assert(left_over(all, picks@) =~= kept@.reverse());
    let ghost m = moved@;
    while moved.len() > 0
        invariant
            new@ + moved@.reverse() == before + m.reverse(),
        decreases moved@.len(),
    {
        let ghost (n, was) = (new@, moved@);
        if let Some(x) = moved.pop() {
            new.push(x);
            assert(n + was.reverse() =~= new@ + moved@.reverse());
        }
    }
    assert(new@ =~= before + m.reverse());
    let ghost k = kept@;
    let mut left: Vec<T> = Vec::new();
    assert(left@ + kept@.reverse() =~= k.reverse());
    while kept.len() > 0
        invariant
            left@ + kept@.reverse() == k.reverse(),
        decreases kept@.len(),
    {
        let ghost (n, was) = (left@, kept@);
        if let Some(x) = kept.pop() {
            left.push(x);
            assert(n + was.reverse() =~= left@ + kept@.reverse());
        }
    }
    assert(left@ =~= k.reverse());
    left
}

/// What rounds of picks make of items, behind those that are in place already: in each round,
/// those that are picked go behind those in place. There is no result if some are left at the
/// end, or after so many rounds.
pub open spec fn shuffled_behind<T>(
    new: Seq<T>,
    items: Seq<T>,
    rounds: Seq<Seq<bool>>,
    most: nat,
) -> Option<Seq<T>>
    decreases most,
{
    if items.len() == 0 {
        Some(new)
    } else if rounds.len() == 0 || most == 0 {
        None
    } else {
        shuffled_behind(
            new + picked(items, rounds[0]),
            left_over(items, rounds[0]),
            rounds.drop_first(),
            (most - 1) as nat,
        )
    }
}

/// What rounds of picks make of items.
pub open spec fn shuffled<T>(items: Seq<T>, rounds: Seq<Seq<bool>>) -> Option<Seq<T>> {
    shuffled_behind(seq![], items, rounds, MAX_ROUNDS as nat)
}

/// The items of a result, if there is one.
pub open spec fn items_of<T>(r: Option<Vec<T>>) -> Option<Seq<T>> {
    match r {
        Some(new) => Some(new@),
        None => None,
    }
}

/// Shuffling loses nothing, and makes nothing up.
proof fn lemma_shuffled<T>(new: Seq<T>, items: Seq<T>, rounds: Seq<Seq<bool>>, most: nat)
    ensures
        shuffled_behind(new, items, rounds, most) matches Some(r) ==> r.to_multiset()
            == new.to_multiset().add(items.to_multiset()),
    decreases most,
{
    broadcast use vstd::seq_lib::group_to_multiset_ensures;

    if items.len() == 0 {
        assert(new.to_multiset() =~= new.to_multiset().add(items.to_multiset()));
    } else if rounds.len() > 0 && most > 0 {
        let (p, l) = (picked(items, rounds[0]), left_over(items, rounds[0]));
        lemma_shuffled(new + p, l, rounds.drop_first(), (most - 1) as nat);
        lemma_parted(items, rounds[0]);
        vstd::seq_lib::lemma_multiset_commutative(new, p);
        assert((new + p).to_multiset().add(l.to_multiset()) =~= new.to_multiset().add(
            items.to_multiset(),
        ));
    }
}

/// A result of shuffling holds the items that were shuffled, in some order.
pub proof fn shuffling_loses_nothing<T>(items: Seq<T>, rounds: Seq<Seq<bool>>)
    ensures
        shuffled(items, rounds) matches Some(new) ==> new.to_multiset() == items.to_multiset()
            && new.len() == items.len(),
{
    broadcast use vstd::seq_lib::group_to_multiset_ensures;

    lemma_shuffled(seq![], items, rounds, MAX_ROUNDS as nat);
    if let Some(new) = shuffled(items, rounds) {
        assert(new.to_multiset() =~= items.to_multiset());
        assert(new.len() == new.to_multiset().len());
        assert(items.len() == items.to_multiset().len());
    }
}

/// Shuffles items by what came up in each round. There is no result if some were never
/// picked.
pub fn shuffle_by<T>(items: Vec<T>, rounds: &Vec<Vec<bool>>) -> (r: Option<Vec<T>>)
    ensures
        items_of(r) == shuffled(items@, rounds.deep_view()),
        r matches Some(new) ==> new@.to_multiset() == items@.to_multiset() && new@.len()
            == items@.len(),
{
    let ghost want = shuffled(items@, rounds.deep_view());
    proof {
        shuffling_loses_nothing(items@, rounds.deep_view());
    }
    let mut items: Vec<T> = items;
    let mut new: Vec<T> = Vec::new();
    let mut round: usize = 0;
    assert(new@ =~= seq![]);
    assert(rounds.deep_view().skip(0) =~= rounds.deep_view());
    while round < MAX_ROUNDS && round < rounds.len() && items.len() > 0
        invariant
            round <= MAX_ROUNDS,
            round <= rounds@.len(),
            want == shuffled_behind(
                new@,
                items@,
                rounds.deep_view().skip(round as int),
                (MAX_ROUNDS - round) as nat,
            ),
        decreases MAX_ROUNDS - round,
    {
        let picks: &Vec<bool> = &rounds[round];
        let ghost rest = rounds.deep_view().skip(round as int);
        assert(rest[0] =~= picks@);
        assert(rest.drop_first() =~= rounds.deep_view().skip(round + 1));
        items = part(items, picks, &mut new);
        round = round + 1;
    }
    if items.len() > 0 {
        None
    } else {
        Some(new)
    }
}

/// How many are picked.
pub open spec fn picks_made(picks: Seq<bool>) -> nat
    decreases picks.len(),
{
    if picks.len() == 0 {
        0
    } else {
        picks_made(picks.drop_last()) + if picks.last() {
            1nat
        } else {
            0nat
        }
    }
}

/// How many of `n` items are left after some rounds.
pub open spec fn left_after(n: nat, rounds: Seq<Seq<bool>>) -> int
    decreases rounds.len(),
{
    if rounds.len() == 0 {
        n as int
    } else {
        left_after(n, rounds.drop_last()) - picks_made(rounds.last())
    }
}

/// Rounds in which each of `n` items that is left, and there are some, gets its chance.
pub open spec fn fair_rounds(n: nat, rounds: Seq<Seq<bool>>) -> bool {
    forall|k: int|
        0 <= k < rounds.len() ==> {
            &&& (#[trigger] rounds[k]).len() == left_after(n, rounds.take(k))
            &&& rounds[k].len() > 0
        }
}

/// Fair rounds, until none of `n` items is left or it is time to give up.
pub open spec fn full_rounds(n: nat, rounds: Seq<Seq<bool>>) -> bool {
    &&& fair_rounds(n, rounds)
    &&& rounds.len() <= MAX_ROUNDS
    &&& rounds.len() == MAX_ROUNDS || left_after(n, rounds) == 0
}

proof fn lemma_one_more_round(n: nat, rounds: Seq<Seq<bool>>, picks: Seq<bool>)
    requires
        fair_rounds(n, rounds),
        picks.len() == left_after(n, rounds),
        picks.len() > 0,
    ensures
        fair_rounds(n, rounds.push(picks)),
        left_after(n, rounds.push(picks)) == left_after(n, rounds) - picks_made(picks),
{
    let all = rounds.push(picks);
    assert(all.drop_last() =~= rounds);
    assert forall|k: int| 0 <= k < all.len() implies {
        &&& (#[trigger] all[k]).len() == left_after(n, all.take(k))
        &&& all[k].len() > 0
    } by {
        if k < rounds.len() {
            assert(all[k] == rounds[k]);
            assert(all.take(k) =~= rounds.take(k));
        } else {
            assert(all.take(k) =~= rounds);
        }
    }
}

/// Shuffles items, by what comes up: in each round, there is one flip for each item that is
/// left, up to the round behind which none is, or the last one. Whatever comes up, a result
/// holds the same items. If some were never picked, there is no result.
pub fn shuffle<T, C: Coin>(items: Vec<T>, coin: &mut C) -> (r: Option<Vec<T>>)
    ensures
        exists|rounds: Seq<Seq<bool>>| #[trigger]
            full_rounds(items@.len(), rounds) && items_of(r) == shuffled(items@, rounds),
        r matches Some(new) ==> new@.to_multiset() == items@.to_multiset() && new@.len()
            == items@.len(),
        items@.len() == 0 ==> r is Some,
{
    let ghost n = items@.len();
    let mut rounds: Vec<Vec<bool>> = Vec::new();
    let mut left: usize = items.len();
    assert(rounds.deep_view() =~= seq![]);
    while rounds.len() < MAX_ROUNDS && left > 0
        invariant
            rounds@.len() <= MAX_ROUNDS,
            left == left_after(n, rounds.deep_view()),
            fair_rounds(n, rounds.deep_view()),
        decreases MAX_ROUNDS - rounds@.len(),
    {
        let mut picks: Vec<bool> = Vec::new();
        let mut made: usize = 0;
        while picks.len() < left
            invariant
                picks@.len() <= left,
                made == picks_made(picks@),
                made <= picks@.len(),
            decreases left - picks@.len(),
        {
            let b: bool = coin.flip();
            let ghost front = picks@;
            picks.push(b);
            assert(picks@.drop_last() =~= front);
            if b {
                made = made + 1;
            }
        }
        let ghost front = rounds.deep_view();
        let ghost came_up = picks.deep_view();
        assert(came_up =~= picks@);
        rounds.push(picks);
        proof {
            assert(rounds.deep_view() =~= front.push(came_up));
            lemma_one_more_round(n, front, came_up);
        }
        left = left - made;
    }
    assert(full_rounds(n, rounds.deep_view()));
    shuffle_by(items, &rounds)
}

/// Picks one item, and no other.
spec fn only(p: int, n: nat) -> Seq<bool> {
    Seq::new(n, |i: int| i == p)
}

proof fn lemma_only_part<T>(items: Seq<T>, p: int, n: nat)
    requires
        0 <= p < n,
        items.len() <= n,
    ensures
        picked(items, only(p, n)) == (if p < items.len() {
            seq![items[p]]
        } else {
            seq![]
        }),
        left_over(items, only(p, n)) == (if p < items.len() {
            items.remove(p)
        } else {
            items
        }),
    decreases items.len(),
{
    if items.len() > 0 {
        let front = items.drop_last();
        lemma_only_part(front, p, n);
        if p < front.len() {
            assert(front.remove(p).push(items.last()) =~= items.remove(p));
        } else if p == front.len() {
            assert(items.remove(p) =~= front);
            assert(Seq::<T>::empty().push(items.last()) =~= seq![items[p]]);
        } else {
            assert(front.push(items.last()) =~= items);
        }
    }
    assert(picked(items, only(p, n)) =~= if p < items.len() {
        seq![items[p]]
    } else {
        seq![]
    });
}

proof fn lemma_any_order<T>(new: Seq<T>, items: Seq<T>, want: Seq<T>, most: nat) -> (rounds: Seq<
    Seq<bool>,
>)
    requires
        want.to_multiset() == items.to_multiset(),
        items.len() <= most,
    ensures
        shuffled_behind(new, items, rounds, most) == Some(new + want),
    decreases items.len(),
{
    broadcast use vstd::seq_lib::group_to_multiset_ensures;

    assert(want.len() == want.to_multiset().len());
    assert(items.len() == items.to_multiset().len());
    if items.len() == 0 {
        assert(new + want =~= new);
        Seq::empty()
    } else {
        let first = want[0];
        assert(want.contains(first));
        assert(items.to_multiset().count(first) > 0);
        assert(items.contains(first));
        let p = choose|p: int| 0 <= p < items.len() && items[p] == first;
        let rest = items.remove(p);
        let later = want.drop_first();
        lemma_only_part(items, p, items.len());
        assert(want =~= seq![first] + later);
        assert(later =~= want.remove(0));
        vstd::seq_lib::to_multiset_remove(items, p);
        vstd::seq_lib::to_multiset_remove(want, 0);
        assert(later.to_multiset() =~= rest.to_multiset());
        let rounds = lemma_any_order(new.push(first), rest, later, (most - 1) as nat);
        let all = seq![only(p, items.len())] + rounds;
        assert(all.drop_first() =~= rounds);
        assert(all[0] == only(p, items.len()));
        assert(new + seq![first] =~= new.push(first));
        assert(new.push(first) + later =~= new + want);
        all
    }
}

/// Any order can come up, as long as there are not more items than rounds.
pub proof fn any_order_can_come_up<T>(items: Seq<T>, want: Seq<T>)
    requires
        want.to_multiset() == items.to_multiset(),
        items.len() <= MAX_ROUNDS,
    ensures
        exists|rounds: Seq<Seq<bool>>| shuffled(items, rounds) == Some(want),
{
    let rounds = lemma_any_order(seq![], items, want, MAX_ROUNDS as nat);
    assert(Seq::<T>::empty() + want =~= want);
    assert(shuffled(items, rounds) == Some(want));
}

} // verus!
