//! Fixed-capacity particle storage.
//!
//! The pool keeps its live entries packed in the slots `0 .. active_count()`.
//! A slot handle is an index into that range. Spawning claims the first free
//! slot, which is the one just past the packed range. Retiring a slot moves the
//! last live entry into it, so handles of other entries may change and must
//! not be kept across a retirement.
use crate::order::rising;
use crate::retirement::{
    doomed_below, kept_from, lemma_rising_queue_count, lemma_sweep_entries_survive, queued,
    swap_out, sweep,
};
use vstd::prelude::*;

verus! {

/// A bounded collection of live entries with slot reuse.
pub struct Pool<T> {
    slots: Vec<T>,
    limit: usize,
}

impl<T> Pool<T> {
    #[verifier::type_invariant]
    spec fn within_capacity(self) -> bool {
        self.slots@.len() <= self.limit
    }

    /// The live entries in storage order; position `i` is slot `i`.
    pub closed spec fn view(&self) -> Seq<T> {
        self.slots@
    }

    /// The number of entries the pool can hold.
    pub closed spec fn spec_capacity(&self) -> usize {
        self.limit
    }

    /// An empty pool that will never hold more than `capacity` entries.
    pub fn new(capacity: usize) -> (pool: Pool<T>)
        ensures
            pool@ == Seq::<T>::empty(),
            pool.capacity() == capacity,
    {
        Pool { slots: Vec::new(), limit: capacity }
    }

    /// Moves the storage out for an update, leaving the pool empty until the
    /// caller stores it back.
    fn take_slots(&mut self) -> (slots: Vec<T>)
        ensures
            slots@ == old(self).slots@,
            final(self).slots@ == Seq::<T>::empty(),
            final(self).limit == old(self).limit,
    {
        let mut slots = Vec::new();
        core::mem::swap(&mut slots, &mut self.slots);
        slots
    }

    /// The number of entries the pool can hold; it never changes.
    #[verifier::when_used_as_spec(spec_capacity)]
    pub fn capacity(&self) -> (n: usize)
        ensures
            n == self.spec_capacity(),
    {
        self.limit
    }

    /// The number of live entries, which never exceeds the capacity.
    pub fn active_count(&self) -> (n: usize)
        ensures
            n == self@.len(),
            n <= self.capacity(),
    {
        proof {
            use_type_invariant(self);
        }
        self.slots.len()
    }

    /// Whether every slot is taken, so that the next spawn would be dropped.
    pub fn is_full(&self) -> (full: bool)
        ensures
            full == (self@.len() == self.capacity()),
            !full ==> self@.len() < self.capacity(),
    {
        proof {
            use_type_invariant(self);
        }
        self.slots.len() == self.limit
    }

    /// Claims the first free slot for `entry` and returns its handle. A full
    /// pool is left as it was and the request is dropped.
    pub fn spawn(&mut self, entry: T) -> (slot: Option<usize>)
        ensures
            final(self).capacity() == old(self).capacity(),
            old(self)@.len() < old(self).capacity() ==> slot == Some(old(self)@.len() as usize)
                && final(self)@ == old(self)@.push(entry),
            old(self)@.len() >= old(self).capacity() ==> slot.is_none() && final(self)@ == old(
                self,
            )@,
    {
        proof {
            use_type_invariant(&*self);
        }
        let at: usize = self.slots.len();
        if at < self.limit {
            let mut slots = self.take_slots();
            slots.push(entry);
            self.slots = slots;
            Some(at)
        } else {
            None
        }
    }

    /// Whether `slot` holds a live entry.
    pub fn is_active(&self, slot: usize) -> (live: bool)
        ensures
            live == (slot < self@.len()),
    {
        slot < self.slots.len()
    }

    /// The entry in `slot`, if that slot is live.
    pub fn get(&self, slot: usize) -> (entry: Option<&T>)
        ensures
            slot < self@.len() ==> entry == Some(&self@[slot as int]),
            slot >= self@.len() ==> entry.is_none(),
    {
        if slot < self.slots.len() {
            Some(&self.slots[slot])
        } else {
            None
        }
    }

    /// The entry in a slot that the caller knows to be live.
    pub(crate) fn entry(&self, slot: usize) -> (entry: &T)
        requires
            slot < self@.len(),
        ensures
            *entry == self@[slot as int],
    {
        &self.slots[slot]
    }

    /// Overwrites the entry in a live `slot`. Returns whether the slot was
    /// live; a write to any other slot changes nothing.
    pub fn put(&mut self, slot: usize, entry: T) -> (written: bool)
        ensures
            final(self).capacity() == old(self).capacity(),
            written == (slot < old(self)@.len()),
            written ==> final(self)@ == old(self)@.update(slot as int, entry),
            !written ==> final(self)@ == old(self)@,
    {
        proof {
            use_type_invariant(&*self);
        }
        if slot < self.slots.len() {
            let mut slots = self.take_slots();
            slots.set(slot, entry);
            self.slots = slots;
            true
        } else {
            false
        }
    }

    /// Resolves an encounter between two distinct live slots: both entries are
    /// read, `resolve` computes what becomes of them, and both results are
    /// written back. Returns whether that happened; a pair that names one slot
    /// twice or a slot that is not live changes nothing.
    pub fn update_pair<F: Fn(&T, &T) -> (T, T)>(
        &mut self,
        first: usize,
        second: usize,
        resolve: F,
    ) -> (done: bool)
        requires
            first != second && first < old(self)@.len() && second < old(self)@.len()
                ==> call_requires(resolve, (&old(self)@[first as int], &old(self)@[second as int])),
        ensures
            final(self).capacity() == old(self).capacity(),
            final(self)@.len() == old(self)@.len(),
            done == (first != second && first < old(self)@.len() && second < old(self)@.len()),
            !done ==> final(self)@ == old(self)@,
            done ==> call_ensures(
                resolve,
                (&old(self)@[first as int], &old(self)@[second as int]),
                (final(self)@[first as int], final(self)@[second as int]),
            ),
            forall|k: int|
                0 <= k < old(self)@.len() && k != first && k != second ==> #[trigger] final(self)@[k]
                    == old(self)@[k],
    {
        proof {
            use_type_invariant(&*self);
        }
        if first == second || first >= self.slots.len() || second >= self.slots.len() {
            return false;
        }
        let mut slots = self.take_slots();
        let (a, b) = resolve(&slots[first], &slots[second]);
        slots.set(first, a);
        slots.set(second, b);
        self.slots = slots;
        true
    }

    /// Retires a live `slot` by swap-removal and hands back its entry. A slot
    /// that is not live is left alone.
    pub fn retire(&mut self, slot: usize) -> (entry: Option<T>)
        ensures
            final(self).capacity() == old(self).capacity(),
            slot < old(self)@.len() ==> entry == Some(old(self)@[slot as int]) && final(self)@
                == swap_out(old(self)@, slot as int),
            slot >= old(self)@.len() ==> entry.is_none() && final(self)@ == old(self)@,
    {
        proof {
            use_type_invariant(&*self);
        }
        if slot < self.slots.len() {
            let mut slots = self.take_slots();
            let entry = slots.swap_remove(slot);
            self.slots = slots;
            Some(entry)
        } else {
            None
        }
    }

    /// Retires every live slot that `queue` names, highest slot first, and
    /// returns how many entries left. A slot that is queued more than once is
    /// retired once; a queued slot that is not live is ignored.
    pub fn retire_all(&mut self, queue: &Vec<usize>) -> (retired: usize)
        ensures
            final(self).capacity() == old(self).capacity(),
            final(self)@ == sweep(old(self)@, queued(queue@), old(self)@.len() as int),
            retired == doomed_below(queued(queue@), old(self)@.len() as int),
            final(self)@.len() + retired == old(self)@.len(),
    {
        proof {
            use_type_invariant(&*self);
        }
        let mut slots = self.take_slots();
        let n: usize = slots.len();
        let marks = mark_queue(queue, n);
        let ghost before = slots@;
        let ghost doomed = queued(queue@);
        let mut k: usize = n;
        let mut retired: usize = 0;
        while k > 0
            invariant
                k <= slots@.len(),
                slots@.len() + retired == n,
                n == before.len(),
                marks@.len() == n,
                forall|i: int| 0 <= i < n ==> marks@[i] == doomed.contains(i),
                retired + doomed_below(doomed, k as int) == doomed_below(doomed, n as int),
                sweep(slots@, doomed, k as int) == sweep(before, doomed, n as int),
            decreases k,
        {
            k -= 1;
            if marks[k] {
                slots.swap_remove(k);
                retired += 1;
            }
        }
        self.slots = slots;
        retired
    }

    /// The live slots, in rising order, on whose entries `chosen` answered
    /// `true`.
    pub fn select<F: Fn(&T) -> bool>(&self, chosen: F) -> (slots: Vec<usize>)
        requires
            forall|i: int| 0 <= i < self@.len() ==> call_requires(chosen, (&#[trigger] self@[i],)),
        ensures
            rising(slots@),
            forall|k: int|
                0 <= k < slots@.len() ==> #[trigger] slots@[k] < self@.len() && call_ensures(
                    chosen,
                    (&self@[slots@[k] as int],),
                    true,
                ),
            forall|i: int|
                0 <= i < self@.len() && !slots@.contains(i as usize) ==> call_ensures(
                    chosen,
                    (&#[trigger] self@[i],),
                    false,
                ),
    {
        let mut slots: Vec<usize> = Vec::new();
        let n: usize = self.slots.len();
        let mut i: usize = 0;
        while i < n
            invariant
                i <= n,
                n == self@.len(),
                forall|j: int| 0 <= j < self@.len() ==> call_requires(chosen, (&#[trigger] self@[j],)),
                rising(slots@),
                forall|k: int|
                    0 <= k < slots@.len() ==> #[trigger] slots@[k] < i && call_ensures(
                        chosen,
                        (&self@[slots@[k] as int],),
                        true,
                    ),
                forall|j: int|
                    0 <= j < i && !slots@.contains(j as usize) ==> call_ensures(
                        chosen,
                        (&#[trigger] self@[j],),
                        false,
                    ),
            decreases n - i,
        {
            let ghost earlier = slots@;
            if chosen(&self.slots[i]) {
                slots.push(i);
                assert(slots@[slots@.len() - 1] == i);
            }
            assert forall|j: int|
                0 <= j < i + 1 && !slots@.contains(j as usize) implies call_ensures(
                chosen,
                (&#[trigger] self@[j],),
                false,
            ) by {
                if j < i {
                    if earlier.contains(j as usize) {
                        let k = choose|k: int| 0 <= k < earlier.len() && earlier[k] == j as usize;
                        assert(slots@[k] == j as usize);
                    }
                }
            }
            i += 1;
        }
        slots
    }

    /// Scans the live entries, then retires every slot on whose entry `gone`
    /// answered `true`, highest slot first. Returns the retired slots in
    /// rising order. No entry that `gone` chose remains, and every other
    /// entry does.
    pub fn retire_where<F: Fn(&T) -> bool>(&mut self, gone: F) -> (slots: Vec<usize>)
        requires
            forall|i: int|
                0 <= i < old(self)@.len() ==> call_requires(gone, (&#[trigger] old(self)@[i],)),
        ensures
            final(self).capacity() == old(self).capacity(),
            rising(slots@),
            forall|k: int|
                0 <= k < slots@.len() ==> #[trigger] slots@[k] < old(self)@.len() && call_ensures(
                    gone,
                    (&old(self)@[slots@[k] as int],),
                    true,
                ),
            forall|i: int|
                0 <= i < old(self)@.len() && !slots@.contains(i as usize) ==> call_ensures(
                    gone,
                    (&#[trigger] old(self)@[i],),
                    false,
                ),
            final(self)@ == sweep(old(self)@, queued(slots@), old(self)@.len() as int),
            final(self)@.len() + slots@.len() == old(self)@.len(),
            forall|j: int|
                0 <= j < final(self)@.len() ==> call_ensures(
                    gone,
                    (&#[trigger] final(self)@[j],),
                    false,
                ),
    {
        let slots = self.select(gone);
        let n: usize = self.active_count();
        let ghost before = self@;
        self.retire_all(&slots);
        proof {
            lemma_rising_queue_count(slots@, n as int);
            assert forall|j: int| 0 <= j < self@.len() implies call_ensures(
                gone,
                (&#[trigger] self@[j],),
                false,
            ) by {
                lemma_sweep_entries_survive(before, queued(slots@), n as int, j);
                let i = choose|i: int|
                    #[trigger] kept_from(before, queued(slots@), n as int, self@[j], i);
                if slots@.contains(i as usize) {
                    let k = choose|k: int| 0 <= k < slots@.len() && slots@[k] == i as usize;
                    assert(slots@[k] as int == i);
                }
            }
        }
        slots
    }

    /// Replaces every live entry by what `step` makes of it, slot by slot.
    pub fn update_each<F: Fn(&T) -> T>(&mut self, step: F)
        requires
            forall|i: int|
                0 <= i < old(self)@.len() ==> call_requires(step, (&#[trigger] old(self)@[i],)),
        ensures
            final(self).capacity() == old(self).capacity(),
            final(self)@.len() == old(self)@.len(),
            forall|i: int|
                0 <= i < old(self)@.len() ==> call_ensures(
                    step,
                    (&old(self)@[i],),
                    #[trigger] final(self)@[i],
                ),
    {
        proof {
            use_type_invariant(&*self);
        }
        let mut slots = self.take_slots();
        let ghost before = slots@;
        assert(before == old(self)@);
        let n: usize = slots.len();
        let mut i: usize = 0;
        while i < n
            invariant
                i <= n,
                n == before.len(),
                slots@.len() == n,
                forall|j: int| 0 <= j < n ==> call_requires(step, (&#[trigger] before[j],)),
                forall|j: int| 0 <= j < i ==> call_ensures(step, (&before[j],), #[trigger] slots@[j]),
                forall|j: int| i <= j < n ==> #[trigger] slots@[j] == before[j],
            decreases n - i,
        {
            let next = step(&slots[i]);
            slots.set(i, next);
            i += 1;
        }
        self.slots = slots;
    }

    /// Carries a running value through the live entries in storage order:
    /// `step` takes the value so far and an entry and gives the value that
    /// goes on to the next entry. Returns the value after the last entry.
    pub fn fold_active<A, F: Fn(A, &T) -> A>(&self, start: A, step: F) -> (total: A)
        requires
            forall|sofar: A, i: int|
                0 <= i < self@.len() ==> call_requires(step, (sofar, &#[trigger] self@[i])),
        ensures
            exists|trace: Seq<A>|
                #[trigger] folds(step, self@, trace) && trace[0] == start && trace.last() == total,
    {
        let n: usize = self.slots.len();
        let mut sofar = start;
        let ghost mut trace: Seq<A> = seq![start];
        let mut i: usize = 0;
        while i < n
            invariant
                i <= n,
                n == self@.len(),
                forall|acc: A, j: int|
                    0 <= j < self@.len() ==> call_requires(step, (acc, &#[trigger] self@[j])),
                trace.len() == i + 1,
                trace[0] == start,
                trace.last() == sofar,
                forall|j: int|
                    0 <= j < i ==> call_ensures(step, (trace[j], &self@[j]), #[trigger] trace[j + 1]),
            decreases n - i,
        {
            let ghost earlier = trace;
            sofar = step(sofar, &self.slots[i]);
            proof {
                trace = earlier.push(sofar);
                assert forall|j: int| 0 <= j < i + 1 implies call_ensures(
                    step,
                    (trace[j], &self@[j]),
                    #[trigger] trace[j + 1],
                ) by {
                    if j < i {
                        assert(trace[j] == earlier[j]);
                        assert(trace[j + 1] == earlier[j + 1]);
                    }
                }
            }
            i += 1;
        }
        assert(folds(step, self@, trace));
        sofar
    }

    /// Carries a running value through the live entries as `fold_active`
    /// does, and replaces each entry on the way: `step` takes the value so
    /// far and an entry and gives the next value together with what the
    /// entry becomes. The running value is handed back once, after every
    /// entry has been visited.
    pub fn update_each_with<A, F: Fn(A, &T) -> (A, T)>(&mut self, start: A, step: F) -> (total: A)
        requires
            forall|sofar: A, i: int|
                0 <= i < old(self)@.len() ==> call_requires(
                    step,
                    (sofar, &#[trigger] old(self)@[i]),
                ),
        ensures
            final(self).capacity() == old(self).capacity(),
            final(self)@.len() == old(self)@.len(),
            exists|trace: Seq<A>|
                #[trigger] threads(step, old(self)@, final(self)@, trace) && trace[0] == start
                    && trace.last() == total,
    {
        proof {
            use_type_invariant(&*self);
        }
        let mut slots = self.take_slots();
        let ghost before = slots@;
        assert(before == old(self)@);
        let n: usize = slots.len();
        let mut sofar = start;
        let ghost mut trace: Seq<A> = seq![start];
        let mut i: usize = 0;
        while i < n
            invariant
                i <= n,
                n == before.len(),
                slots@.len() == n,
                forall|acc: A, j: int|
                    0 <= j < n ==> call_requires(step, (acc, &#[trigger] before[j])),
                trace.len() == i + 1,
                trace[0] == start,
                trace.last() == sofar,
                forall|j: int|
                    0 <= j < i ==> call_ensures(
                        step,
                        (trace[j], &before[j]),
                        (#[trigger] trace[j + 1], slots@[j]),
                    ),
                forall|j: int| i <= j < n ==> #[trigger] slots@[j] == before[j],
            decreases n - i,
        {
            let ghost earlier = trace;
            let (next, entry) = step(sofar, &slots[i]);
            sofar = next;
            slots.set(i, entry);
            proof {
                trace = earlier.push(sofar);
                assert forall|j: int| 0 <= j < i + 1 implies call_ensures(
                    step,
                    (trace[j], &before[j]),
                    (#[trigger] trace[j + 1], slots@[j]),
                ) by {
                    if j < i {
                        assert(trace[j] == earlier[j]);
                        assert(trace[j + 1] == earlier[j + 1]);
                    }
                }
            }
            i += 1;
        }
        let ghost after = slots@;
        self.slots = slots;
        assert(threads(step, old(self)@, self@, trace)) by {
            assert(self@ == after);
        }
        sofar
    }

    /// Resolves the encounters that `pairs` lists, one after the other in the
    /// order given, each as `update_pair` does. Returns how many of them
    /// named two distinct live slots and so were resolved.
    pub fn resolve_all<F: Fn(&T, &T) -> (T, T)>(
        &mut self,
        pairs: &Vec<(usize, usize)>,
        resolve: F,
    ) -> (resolved: usize)
        requires
            forall|x: T, y: T| call_requires(resolve, (&x, &y)),
        ensures
            final(self).capacity() == old(self).capacity(),
            final(self)@.len() == old(self)@.len(),
            resolved == live_pairs(pairs@, old(self)@.len()),
            exists|trace: Seq<Seq<T>>|
                #[trigger] encounters(resolve, pairs@, trace) && trace[0] == old(self)@
                    && trace.last() == final(self)@,
    {
        let ghost mut trace: Seq<Seq<T>> = seq![self@];
        let mut resolved: usize = 0;
        let mut k: usize = 0;
        while k < pairs.len()
            invariant
                k <= pairs@.len(),
                resolved <= k,
                resolved == live_pairs(pairs@.take(k as int), old(self)@.len()),
                forall|x: T, y: T| call_requires(resolve, (&x, &y)),
                self.capacity() == old(self).capacity(),
                self@.len() == old(self)@.len(),
                trace.len() == k + 1,
                trace[0] == old(self)@,
                trace.last() == self@,
                forall|j: int|
                    0 <= j < k ==> encounter(resolve, trace[j], pairs@[j], #[trigger] trace[j + 1]),
            decreases pairs@.len() - k,
        {
            let ghost earlier = trace;
            let ghost before = self@;
            let pair = pairs[k];
            let done = self.update_pair(pair.0, pair.1, &resolve);
            if done {
                resolved += 1;
            }
            proof {
                assert(pairs@.take(k + 1).drop_last() =~= pairs@.take(k as int));
                assert(pairs@.take(k + 1).last() == pair);
                trace = earlier.push(self@);
                assert(encounter(resolve, before, pairs@[k as int], self@));
                assert forall|j: int| 0 <= j < k + 1 implies encounter(
                    resolve,
                    trace[j],
                    pairs@[j],
                    #[trigger] trace[j + 1],
                ) by {
                    if j < k {
                        assert(trace[j] == earlier[j]);
                        assert(trace[j + 1] == earlier[j + 1]);
                    }
                }
            }
            k += 1;
        }
        assert(encounters(resolve, pairs@, trace));
        assert(pairs@.take(pairs@.len() as int) =~= pairs@);
        resolved
    }

    /// What `read` makes of each live entry, in storage order.
    pub fn map_active<R, F: Fn(&T) -> R>(&self, read: F) -> (out: Vec<R>)
        requires
            forall|i: int| 0 <= i < self@.len() ==> call_requires(read, (&#[trigger] self@[i],)),
        ensures
            out@.len() == self@.len(),
            forall|i: int|
                0 <= i < self@.len() ==> call_ensures(read, (&self@[i],), #[trigger] out@[i]),
    {
        let mut out: Vec<R> = Vec::new();
        let n: usize = self.slots.len();
        let mut i: usize = 0;
        while i < n
            invariant
                i <= n,
                n == self@.len(),
                out@.len() == i,
                forall|j: int| 0 <= j < self@.len() ==> call_requires(read, (&#[trigger] self@[j],)),
                forall|j: int| 0 <= j < i ==> call_ensures(read, (&self@[j],), #[trigger] out@[j]),
            decreases n - i,
        {
            out.push(read(&self.slots[i]));
            i += 1;
        }
        out
    }
}

/// One flag per slot below `n`, set where `queue` names the slot.
fn mark_queue(queue: &Vec<usize>, n: usize) -> (marks: Vec<bool>)
    ensures
        marks@.len() == n,
        forall|i: int| 0 <= i < n ==> marks@[i] == queued(queue@).contains(i),
{
    let mut marks: Vec<bool> = Vec::new();
    while marks.len() < n
        invariant
            marks@.len() <= n,
            forall|i: int| 0 <= i < marks@.len() ==> !marks@[i],
        decreases n - marks@.len(),
    {
        marks.push(false);
    }
    let mut k: usize = 0;
    while k < queue.len()
        invariant
            k <= queue@.len(),
            marks@.len() == n,
            forall|i: int|
                0 <= i < n ==> (marks@[i] <==> exists|j: int|
                    0 <= j < k && #[trigger] queue@[j] as int == i),
        decreases queue@.len() - k,
    {
        let slot: usize = queue[k];
        if slot < n {
            marks.set(slot, true);
        }
        assert forall|i: int| 0 <= i < n implies (marks@[i] <==> exists|j: int|
            0 <= j < k + 1 && #[trigger] queue@[j] as int == i) by {
            if i == slot as int {
                assert(queue@[k as int] as int == i);
            }
        }
        k += 1;
    }
    marks
}

/// `trace` holds the running value before the first entry of `items` and
/// after each one, every step being one that `step` can take.
pub open spec fn folds<T, A, F: Fn(A, &T) -> A>(step: F, items: Seq<T>, trace: Seq<A>) -> bool {
    &&& trace.len() == items.len() + 1
    &&& forall|i: int|
        0 <= i < items.len() ==> call_ensures(step, (trace[i], &items[i]), #[trigger] trace[i + 1])
}

/// As `folds`, where each step also turns an entry of `before` into the entry
/// of `after` in the same slot.
pub open spec fn threads<T, A, F: Fn(A, &T) -> (A, T)>(
    step: F,
    before: Seq<T>,
    after: Seq<T>,
    trace: Seq<A>,
) -> bool {
    &&& after.len() == before.len()
    &&& trace.len() == before.len() + 1
    &&& forall|i: int|
        0 <= i < before.len() ==> call_ensures(
            step,
            (trace[i], &before[i]),
            (#[trigger] trace[i + 1], after[i]),
        )
}

/// The pair names two distinct slots that are live among `n` entries.
pub open spec fn names_two_live(pair: (usize, usize), n: nat) -> bool {
    pair.0 != pair.1 && pair.0 < n && pair.1 < n
}

/// How many of `pairs` name two distinct slots that are live among `n`
/// entries; a pair that is listed twice counts twice.
pub open spec fn live_pairs(pairs: Seq<(usize, usize)>, n: nat) -> nat
    decreases pairs.len(),
{
    if pairs.len() == 0 {
        0
    } else {
        live_pairs(pairs.drop_last(), n) + if names_two_live(pairs.last(), n) {
            1nat
        } else {
            0nat
        }
    }
}

/// One encounter: where `pair` names two distinct live slots, `resolve` has
/// turned their two entries into the two entries that `after` holds there and
/// every other slot is as it was; any other pair changes nothing.
pub open spec fn encounter<T, F: Fn(&T, &T) -> (T, T)>(
    resolve: F,
    before: Seq<T>,
    pair: (usize, usize),
    after: Seq<T>,
) -> bool {
    &&& after.len() == before.len()
    &&& if pair.0 != pair.1 && pair.0 < before.len() && pair.1 < before.len() {
        &&& call_ensures(
            resolve,
            (&before[pair.0 as int], &before[pair.1 as int]),
            (after[pair.0 as int], after[pair.1 as int]),
        )
        &&& forall|k: int|
            0 <= k < before.len() && k != pair.0 && k != pair.1 ==> #[trigger] after[k]
                == before[k]
    } else {
        after == before
    }
}

/// `trace` holds the entries before the first of `pairs` and after each of
/// them, every step being one encounter.
pub open spec fn encounters<T, F: Fn(&T, &T) -> (T, T)>(
    resolve: F,
    pairs: Seq<(usize, usize)>,
    trace: Seq<Seq<T>>,
) -> bool {
    &&& trace.len() == pairs.len() + 1
    &&& forall|j: int|
        0 <= j < pairs.len() ==> encounter(resolve, trace[j], pairs[j], #[trigger] trace[j + 1])
}

} // verus!
