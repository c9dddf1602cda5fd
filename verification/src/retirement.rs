//! Retiring several slots in one pass.
//!
//! Slots found to be leaving during a read-only scan are queued and retired
//! afterwards. The pass removes them by swap-removal from the highest slot
//! down, so that a removal never disturbs a slot that is still waiting.
use crate::order::rising;
use vstd::multiset::Multiset;
use vstd::prelude::*;

verus! {

/// What is left of `s` when slot `i` is taken out by swap-removal: the last
/// entry moves into slot `i` and the sequence loses its last position.
pub open spec fn swap_out<T>(s: Seq<T>, i: int) -> Seq<T> {
    s.update(i, s.last()).drop_last()
}

/// Swap-removal of every doomed slot below `k`, highest slot first.
pub open spec fn sweep<T>(s: Seq<T>, doomed: Set<int>, k: int) -> Seq<T>
    decreases k,
{
    if k <= 0 {
        s
    } else if doomed.contains(k - 1) {
        sweep(swap_out(s, k - 1), doomed, k - 1)
    } else {
        sweep(s, doomed, k - 1)
    }
}

/// The slots that a retirement queue names, each once however often it was
/// queued.
pub open spec fn queued(queue: Seq<usize>) -> Set<int> {
    Set::new(|i: int| exists|k: int| 0 <= k < queue.len() && queue[k] as int == i)
}

/// The entries of `s` whose slot is not doomed, in the order they had.
pub open spec fn survivors<T>(s: Seq<T>, doomed: Set<int>) -> Seq<T>
    decreases s.len(),
{
    if s.len() == 0 {
        s
    } else if doomed.contains(s.len() - 1) {
        survivors(s.drop_last(), doomed)
    } else {
        survivors(s.drop_last(), doomed).push(s.last())
    }
}

/// How many slots below `k` are doomed.
pub open spec fn doomed_below(doomed: Set<int>, k: int) -> nat
    decreases k,
{
    if k <= 0 {
        0
    } else if doomed.contains(k - 1) {
        doomed_below(doomed, k - 1) + 1
    } else {
        doomed_below(doomed, k - 1)
    }
}

/// The length after a sweep is the old length less the number of doomed
/// slots.
pub proof fn lemma_sweep_len<T>(s: Seq<T>, doomed: Set<int>, k: int)
    requires
        0 <= k <= s.len(),
    ensures
        sweep(s, doomed, k).len() + doomed_below(doomed, k) == s.len(),
    decreases k,
{
    if k > 0 {
        if doomed.contains(k - 1) {
            lemma_sweep_len(swap_out(s, k - 1), doomed, k - 1);
        } else {
            lemma_sweep_len(s, doomed, k - 1);
        }
    }
}

/// A sweep keeps every entry whose slot is not doomed, each as often as it
/// was there, and nothing else: no retired entry remains and no survivor is
/// lost or doubled.
pub proof fn lemma_sweep_keeps_survivors<T>(s: Seq<T>, doomed: Set<int>)
    ensures
        sweep(s, doomed, s.len() as int).to_multiset() == survivors(s, doomed).to_multiset(),
{
    lemma_sweep_prefix(s, doomed, s.len() as int);
    assert(s.take(s.len() as int) =~= s);
    assert(s.skip(s.len() as int) =~= Seq::<T>::empty());
    assert(Seq::<T>::empty().to_multiset() =~= Multiset::<T>::empty()) by {
        broadcast use vstd::seq_lib::group_to_multiset_ensures;

    }
    assert(survivors(s, doomed).to_multiset().add(Multiset::<T>::empty()) =~= survivors(
        s,
        doomed,
    ).to_multiset());
}

proof fn lemma_sweep_prefix<T>(s: Seq<T>, doomed: Set<int>, k: int)
    requires
        0 <= k <= s.len(),
    ensures
        sweep(s, doomed, k).to_multiset() == survivors(s.take(k), doomed).to_multiset().add(
            s.skip(k).to_multiset(),
        ),
    decreases k,
{
    broadcast use vstd::seq_lib::group_to_multiset_ensures;

    if k == 0 {
        assert(s.take(0) =~= Seq::<T>::empty());
        assert(s.skip(0) =~= s);
        assert(Seq::<T>::empty().to_multiset() =~= Multiset::<T>::empty());
        assert(Multiset::<T>::empty().add(s.to_multiset()) =~= s.to_multiset());
    } else {
        let head = s.take(k - 1);
        let x = s[k - 1];
        let rest = s.skip(k);
        assert(s.take(k).drop_last() =~= head);
        assert(s.take(k).last() == x);
        if doomed.contains(k - 1) {
            let t = swap_out(s, k - 1);
            lemma_sweep_prefix(t, doomed, k - 1);
            assert(t.take(k - 1) =~= head);
            if k == s.len() {
                assert(t.skip(k - 1) =~= rest);
            } else {
                assert(t.skip(k - 1) =~= seq![rest.last()] + rest.drop_last());
                assert(rest =~= rest.drop_last().push(rest.last()));
                vstd::seq_lib::lemma_multiset_commutative(seq![rest.last()], rest.drop_last());
                assert(seq![rest.last()] =~= Seq::<T>::empty().push(rest.last()));
                assert(seq![rest.last()].to_multiset() =~= Multiset::<T>::empty().insert(
                    rest.last(),
                ));
                assert(t.skip(k - 1).to_multiset() =~= rest.to_multiset());
            }
        } else {
            lemma_sweep_prefix(s, doomed, k - 1);
            assert(s.skip(k - 1) =~= seq![x] + rest);
            vstd::seq_lib::lemma_multiset_commutative(seq![x], rest);
            assert(seq![x] =~= Seq::<T>::empty().push(x));
            assert(seq![x].to_multiset() =~= Multiset::<T>::empty().insert(x));
            assert(survivors(s.take(k), doomed) == survivors(head, doomed).push(x));
            assert(survivors(head, doomed).push(x).to_multiset().add(rest.to_multiset())
                =~= survivors(head, doomed).to_multiset().add(s.skip(k - 1).to_multiset()));
        }
    }
}

/// A survivor whose slot lies below the new length keeps its slot: a sweep
/// moves entries only out of the part of the range that it cuts off.
pub proof fn lemma_sweep_keeps_low_slots<T>(s: Seq<T>, doomed: Set<int>, k: int, i: int)
    requires
        0 <= k <= s.len(),
        0 <= i < sweep(s, doomed, k).len(),
        !doomed.contains(i),
    ensures
        sweep(s, doomed, k)[i] == s[i],
    decreases k,
{
    lemma_sweep_len(s, doomed, k);
    if k > 0 {
        if doomed.contains(k - 1) {
            let t = swap_out(s, k - 1);
            lemma_sweep_len(t, doomed, k - 1);
            lemma_sweep_keeps_low_slots(t, doomed, k - 1, i);
            if i > k - 1 {
                lemma_doomed_below_bound(doomed, k - 1);
            }
        } else {
            lemma_sweep_keeps_low_slots(s, doomed, k - 1, i);
        }
    }
}

/// No more slots are doomed below `k` than there are slots below `k`.
pub proof fn lemma_doomed_below_bound(doomed: Set<int>, k: int)
    ensures
        doomed_below(doomed, k) <= if k < 0 { 0 } else { k },
    decreases k,
{
    if k > 0 {
        lemma_doomed_below_bound(doomed, k - 1);
    }
}

/// Slot `i` of `s` holds `x` and is not among the doomed slots below `k`.
pub open spec fn kept_from<T>(s: Seq<T>, doomed: Set<int>, k: int, x: T, i: int) -> bool {
    0 <= i < s.len() && !(i < k && doomed.contains(i)) && s[i] == x
}

/// Every entry that a sweep leaves behind was in a slot that was not doomed:
/// nothing retired remains, and nothing new appears.
pub proof fn lemma_sweep_entries_survive<T>(s: Seq<T>, doomed: Set<int>, k: int, j: int)
    requires
        0 <= k <= s.len(),
        0 <= j < sweep(s, doomed, k).len(),
    ensures
        exists|i: int| #[trigger] kept_from(s, doomed, k, sweep(s, doomed, k)[j], i),
    decreases k,
{
    let x = sweep(s, doomed, k)[j];
    if k == 0 {
        assert(kept_from(s, doomed, k, x, j));
    } else if doomed.contains(k - 1) {
        let t = swap_out(s, k - 1);
        assert(sweep(s, doomed, k) == sweep(t, doomed, k - 1));
        lemma_sweep_entries_survive(t, doomed, k - 1, j);
        let i = choose|i: int| #[trigger] kept_from(t, doomed, k - 1, x, i);
        if i == k - 1 {
            assert(kept_from(s, doomed, k, x, s.len() - 1));
        } else {
            assert(kept_from(s, doomed, k, x, i));
        }
    } else {
        assert(sweep(s, doomed, k) == sweep(s, doomed, k - 1));
        lemma_sweep_entries_survive(s, doomed, k - 1, j);
        let i = choose|i: int| #[trigger] kept_from(s, doomed, k - 1, x, i);
        assert(kept_from(s, doomed, k, x, i));
    }
}

/// How many slots are doomed below `k` depends only on which slots below `k`
/// are doomed.
pub proof fn lemma_doomed_below_agrees(first: Set<int>, second: Set<int>, k: int)
    requires
        forall|i: int| 0 <= i < k ==> (first.contains(i) <==> second.contains(i)),
    ensures
        doomed_below(first, k) == doomed_below(second, k),
    decreases k,
{
    if k > 0 {
        lemma_doomed_below_agrees(first, second, k - 1);
    }
}

/// A rising queue of live slots dooms as many slots as it is long.
pub proof fn lemma_rising_queue_count(queue: Seq<usize>, n: int)
    requires
        rising(queue),
        forall|k: int| 0 <= k < queue.len() ==> #[trigger] queue[k] < n,
    ensures
        doomed_below(queued(queue), n) == queue.len(),
    decreases n,
{
    if n <= 0 {
        if queue.len() > 0 {
            assert(queue[0] < n);
        }
    } else if queue.len() > 0 && queue.last() == n - 1 {
        let rest = queue.drop_last();
        assert(queued(queue).contains(n - 1)) by {
            assert(queue[queue.len() - 1] as int == n - 1);
        }
        assert forall|k: int| 0 <= k < rest.len() implies #[trigger] rest[k] < n - 1 by {
            assert(queue[k] < queue[queue.len() - 1]);
        }
        lemma_rising_queue_count(rest, n - 1);
        assert forall|i: int| 0 <= i < n - 1 implies (queued(queue).contains(i) <==> queued(
            rest,
        ).contains(i)) by {
            if queued(queue).contains(i) {
                let k = choose|k: int| 0 <= k < queue.len() && queue[k] as int == i;
                assert(rest[k] as int == i);
            }
            if queued(rest).contains(i) {
                let k = choose|k: int| 0 <= k < rest.len() && rest[k] as int == i;
                assert(queue[k] as int == i);
            }
        }
        lemma_doomed_below_agrees(queued(queue), queued(rest), n - 1);
    } else {
        assert(!queued(queue).contains(n - 1)) by {
            if queued(queue).contains(n - 1) {
                let k = choose|k: int| 0 <= k < queue.len() && queue[k] as int == n - 1;
                if k < queue.len() - 1 {
                    assert(queue[k] < queue[queue.len() - 1]);
                    assert(queue[queue.len() - 1] < n);
                }
            }
        }
        assert forall|k: int| 0 <= k < queue.len() implies #[trigger] queue[k] < n - 1 by {
            assert(queue[k] < n);
            if queue[k] as int == n - 1 {
                assert(queued(queue).contains(n - 1));
            }
        }
        lemma_rising_queue_count(queue, n - 1);
    }
}

/// Only which slots are queued matters, not how often or in what order: two
/// queues that name the same slots doom the same slots.
pub proof fn lemma_queue_repeats(first: Seq<usize>, second: Seq<usize>)
    requires
        forall|slot: usize| first.contains(slot) <==> second.contains(slot),
    ensures
        queued(first) == queued(second),
{
    assert forall|i: int| queued(first).contains(i) <==> queued(second).contains(i) by {
        if queued(first).contains(i) {
            let k = choose|k: int| 0 <= k < first.len() && first[k] as int == i;
            assert(first.contains(first[k]));
            let j = choose|j: int| 0 <= j < second.len() && second[j] == first[k];
            assert(second[j] as int == i);
        }
        if queued(second).contains(i) {
            let k = choose|k: int| 0 <= k < second.len() && second[k] as int == i;
            assert(second.contains(second[k]));
            let j = choose|j: int| 0 <= j < first.len() && first[j] == second[k];
            assert(first[j] as int == i);
        }
    }
    assert(queued(first) =~= queued(second));
}

} // verus!
