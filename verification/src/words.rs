//! The item store and the scheduling algorithm.

use vstd::prelude::*;

use crate::review::Quality;

verus! {

/// One recall item: its scheduling state plus an opaque payload.
///
/// `factor` is the ease factor in hundredths, so `250` stands for an
/// ease of 2.5; it is bounded below by `130` (an ease of 1.3).
#[derive(Debug, Clone)]
pub struct Item<Payload> {
    pub repetition: usize,
    pub factor: usize,
    pub interval: usize,
    pub payload: Payload,
}

/// The change a grade makes to the ease factor, in hundredths.
///
/// With `d = 5 - q` the curve is `0.1 - d * (0.08 + d * 0.02)`, which at
/// the five valid grades gives exactly these multiples of a hundredth.
pub open spec fn factor_delta(q: Quality) -> int {
    match q {
        Quality::CompleteBlackout => -80,
        Quality::IncorrectResponse => -54,
        Quality::CorrectResponseHard => -14,
        Quality::CorrectResponse => 0,
        Quality::PerfectResponse => 10,
    }
}

/// The ease factor after a review: shifted by the grade's delta, clamped
/// to the floor of 1.3, and saturating at the machine bound above.
pub open spec fn next_factor(factor: nat, q: Quality) -> nat {
    let f = factor + factor_delta(q);
    if f < 130 {
        130
    } else if f > usize::MAX {
        usize::MAX as nat
    } else {
        f as nat
    }
}

/// A review is a lapse when the clamped new factor falls below 3.0.
pub open spec fn is_lapse(factor: nat, q: Quality) -> bool {
    next_factor(factor, q) < 300
}

/// The repetition count after a review: a lapse resets it, a success
/// raises it by two (one increment for the attempt and one more on the
/// success branch).
pub open spec fn next_repetition(rep: nat, factor: nat, q: Quality) -> nat {
    if is_lapse(factor, q) { 0 } else { rep + 2 }
}

/// The review interval, in days, for repetition count `n` under ease
/// factor `factor` (in hundredths): 0, 1 and 6 for the first three
/// counts, then the previous interval scaled by the factor and rounded
/// up, saturating at the machine bound.
pub open spec fn interval_of(n: nat, factor: nat) -> nat
    decreases n,
{
    if n == 0 {
        0
    } else if n == 1 {
        1
    } else if n == 2 {
        6
    } else {
        let raw = (interval_of((n - 1) as nat, factor) * factor + 99) / 100;
        if raw > usize::MAX as nat { usize::MAX as nat } else { raw }
    }
}

/// The whole effect of one review on an item's scheduling state: the
/// factor is shifted and clamped, the repetition count reset or raised,
/// and the interval recomputed from scratch for the new pair.
pub open spec fn apply_review<Payload>(item: Item<Payload>, q: Quality) -> Item<Payload> {
    let nf = next_factor(item.factor as nat, q);
    let nr = next_repetition(item.repetition as nat, item.factor as nat, q);
    Item {
        repetition: nr as usize,
        factor: nf as usize,
        interval: interval_of(nr, nf) as usize,
        payload: item.payload,
    }
}

impl<Payload> Item<Payload> {
    /// Recomputes the review interval for repetition count `n` from this
    /// item's current ease factor.
    pub fn new_interval(&self, n: usize) -> (r: usize)
        ensures
            r == interval_of(n as nat, self.factor as nat),
        decreases n,
    {
        if n == 0 {
            0
        } else if n == 1 {
            1
        } else if n == 2 {
            6
        } else {
            let prev = self.new_interval(n - 1);
            proof {
                assert((prev as u128) * (self.factor as u128) <= u128::MAX - 99)
                    by (nonlinear_arith)
                    requires
                        prev as u128 <= 0xffff_ffff_ffff_ffffu128,
                        self.factor as u128 <= 0xffff_ffff_ffff_ffffu128,
                ;
            }
            let wide: u128 = (prev as u128) * (self.factor as u128) + 99;
            let raw: u128 = wide / 100;
            if raw > (usize::MAX as u128) {
                usize::MAX
            } else {
                raw as usize
            }
        }
    }
}

/// An item can take one more review without its repetition count
/// outgrowing the machine word.
pub open spec fn can_review<Payload>(item: Item<Payload>) -> bool {
    item.repetition + 2 <= usize::MAX
}

/// The ease factor after the grade's delta and clamp, computed
/// executably.
fn advance_factor(factor: usize, q: &Quality) -> (nf: usize)
    ensures
        nf == next_factor(factor as nat, *q),
{
    match q {
        Quality::CompleteBlackout => if factor < 210 { 130 } else { factor - 80 },
        Quality::IncorrectResponse => if factor < 184 { 130 } else { factor - 54 },
        Quality::CorrectResponseHard => if factor < 144 { 130 } else { factor - 14 },
        Quality::CorrectResponse => if factor < 130 { 130 } else { factor },
        Quality::PerfectResponse => {
            if factor > usize::MAX - 10 {
                usize::MAX
            } else if factor + 10 < 130 {
                130
            } else {
                factor + 10
            }
        },
    }
}

/// Every interval value fits the machine word.
proof fn lemma_interval_bounded(n: nat, factor: nat)
    ensures
        interval_of(n, factor) <= usize::MAX,
{
}

/// One step of interval growth never shrinks the interval.
proof fn lemma_interval_step(n: nat, factor: nat)
    requires
        1 <= n,
        100 <= factor,
    ensures
        interval_of(n, factor) <= interval_of(n + 1, factor),
{
    if n >= 2 {
        let i = interval_of(n, factor) as int;
        let f = factor as int;
        lemma_interval_bounded(n, factor);
        vstd::arithmetic::mul::lemma_mul_inequality(100, f, i);
        vstd::arithmetic::div_mod::lemma_div_multiples_vanish(i, 100);
        vstd::arithmetic::div_mod::lemma_div_is_ordered(100 * i, i * f + 99, 100);
        assert(100 * i <= i * f + 99);
        assert(i <= (i * f + 99) / 100);
    }
}

/// Law: for a fixed ease factor at or above the 1.3 floor, the interval
/// is non-decreasing in the repetition count, from count 1 on.
pub proof fn lemma_interval_monotonic(m: nat, n: nat, factor: nat)
    requires
        1 <= m <= n,
        130 <= factor,
    ensures
        interval_of(m, factor) <= interval_of(n, factor),
    decreases n - m,
{
    if m < n {
        lemma_interval_monotonic(m, (n - 1) as nat, factor);
        lemma_interval_step((n - 1) as nat, factor);
    }
}

/// The scheduling state after a whole history of reviews, applied in
/// order.
pub open spec fn apply_reviews<Payload>(item: Item<Payload>, qs: Seq<Quality>) -> Item<Payload>
    decreases qs.len(),
{
    if qs.len() == 0 {
        item
    } else {
        apply_review(apply_reviews(item, qs.drop_last()), qs.last())
    }
}

/// Law: whatever sequence of grades a review history applies — repeated
/// complete blackouts included — the ease factor never drops below the
/// 1.3 floor.
pub proof fn lemma_factor_floor<Payload>(item: Item<Payload>, qs: Seq<Quality>)
    requires
        item.factor >= 130,
    ensures
        apply_reviews(item, qs).factor >= 130,
    decreases qs.len(),
{
    if qs.len() > 0 {
        lemma_factor_floor(item, qs.drop_last());
    }
}

/// Law: a review that drives the clamped factor below 3.0 is a lapse:
/// it resets the repetition count to zero and, since the interval for
/// count zero is zero, leaves the item immediately due again.
pub proof fn lemma_lapse_resets<Payload>(item: Item<Payload>, q: Quality)
    requires
        is_lapse(item.factor as nat, q),
    ensures
        apply_review(item, q).repetition == 0,
        apply_review(item, q).interval == 0,
{
}

/// One elapsed day, seen from one item: a pending interval counts down
/// by one; a due item (interval zero) is left as it is. With the flag
/// off nothing changes.
pub open spec fn elapse_item<Payload>(item: Item<Payload>, count_as_a_day: bool) -> Item<
    Payload,
> {
    if count_as_a_day && item.interval > 0 {
        Item {
            repetition: item.repetition,
            factor: item.factor,
            interval: (item.interval - 1) as usize,
            payload: item.payload,
        }
    } else {
        item
    }
}

/// The keys of the due entries (interval zero), in entry order.
pub open spec fn due_keys<Payload>(s: Seq<(usize, Item<Payload>)>) -> Seq<usize>
    decreases s.len(),
{
    if s.len() == 0 {
        Seq::empty()
    } else {
        let rest = due_keys(s.drop_last());
        if s.last().1.interval == 0 {
            rest.push(s.last().0)
        } else {
            rest
        }
    }
}

/// A key is among the due keys exactly when some entry carries it with
/// interval zero.
pub proof fn lemma_due_keys_contains<Payload>(s: Seq<(usize, Item<Payload>)>, k: usize)
    ensures
        due_keys(s).contains(k) <==> exists|i: int|
            0 <= i < s.len() && (#[trigger] s[i]).0 == k && s[i].1.interval == 0,
    decreases s.len(),
{
    if s.len() > 0 {
        let rest = s.drop_last();
        lemma_due_keys_contains(rest, k);
        assert(forall|i: int| 0 <= i < rest.len() ==> rest[i] == s[i]);
        if due_keys(s).contains(k) {
            let w = choose|w: int| 0 <= w < due_keys(s).len() && due_keys(s)[w] == k;
            if s.last().1.interval == 0 {
                assert(due_keys(s) == due_keys(rest).push(s.last().0));
                if w == due_keys(rest).len() {
                    assert(s[s.len() - 1].0 == k && s[s.len() - 1].1.interval == 0);
                } else {
                    assert(due_keys(rest)[w] == k);
                    assert(due_keys(rest).contains(k));
                }
            }
        }
        if exists|i: int| 0 <= i < s.len() && (#[trigger] s[i]).0 == k && s[i].1.interval == 0 {
            let i = choose|i: int|
                0 <= i < s.len() && (#[trigger] s[i]).0 == k && s[i].1.interval == 0;
            if i == s.len() - 1 {
                assert(due_keys(s) == due_keys(rest).push(k));
                assert(due_keys(s)[due_keys(s).len() - 1] == k);
                assert(due_keys(s).contains(k));
            } else {
                assert(rest[i].0 == k && rest[i].1.interval == 0);
                assert(due_keys(rest).contains(k));
                let w = choose|w: int|
                    0 <= w < due_keys(rest).len() && due_keys(rest)[w] == k;
                if s.last().1.interval == 0 {
                    assert(due_keys(s)[w] == k);
                }
                assert(due_keys(s).contains(k));
            }
        }
    }
}

/// Distinct entry keys give a due list without repetitions.
proof fn lemma_due_keys_distinct<Payload>(s: Seq<(usize, Item<Payload>)>)
    requires
        forall|i: int, j: int|
            0 <= i < j < s.len() ==> (#[trigger] s[i]).0 != (#[trigger] s[j]).0,
    ensures
        forall|i: int, j: int|
            0 <= i < j < due_keys(s).len() ==> due_keys(s)[i] != due_keys(s)[j],
    decreases s.len(),
{
    if s.len() > 0 {
        let rest = s.drop_last();
        assert(forall|i: int| 0 <= i < rest.len() ==> rest[i] == s[i]);
        lemma_due_keys_distinct(rest);
        if s.last().1.interval == 0 {
            let d = due_keys(s);
            assert(d == due_keys(rest).push(s.last().0));
            lemma_due_keys_contains(rest, s.last().0);
            assert(!due_keys(rest).contains(s.last().0));
            assert forall|i: int, j: int| 0 <= i < j < d.len() implies d[i] != d[j] by {
                if j < d.len() - 1 {
                    assert(due_keys(rest)[i] != due_keys(rest)[j]);
                } else {
                    assert(d[j] == s.last().0);
                    assert(due_keys(rest)[i] == d[i]);
                    if d[i] == s.last().0 {
                        assert(due_keys(rest).contains(s.last().0));
                    }
                }
            }
        }
    }
}

/// The item store: a keyed collection of items, a monotonically
/// increasing next-key counter, and a last-modified timestamp (in
/// milliseconds) touched on every scheduling mutation.
#[derive(Debug, Clone)]
pub struct InMemory<Payload> {
    pub version: i64,
    pub next_id: usize,
    pub mem: Vec<(usize, Item<Payload>)>,
}

impl<Payload> InMemory<Payload> {
    /// Well-formedness: keys are unique and below the next-key counter,
    /// and every stored factor respects the 1.3 floor.
    pub open spec fn wf(self) -> bool {
        &&& forall|i: int, j: int|
            0 <= i < j < self.mem@.len() ==> (#[trigger] self.mem@[i]).0 != (
            #[trigger] self.mem@[j]).0
        &&& forall|i: int| 0 <= i < self.mem@.len() ==> (#[trigger] self.mem@[i]).0 < self.next_id
        &&& forall|i: int|
            0 <= i < self.mem@.len() ==> (#[trigger] self.mem@[i]).1.factor >= 130
    }

    /// Whether some item is stored under the key.
    pub open spec fn has_key(self, k: usize) -> bool {
        exists|i: int| 0 <= i < self.mem@.len() && (#[trigger] self.mem@[i]).0 == k
    }

    /// The position of the key's entry (meaningful only when the key is
    /// present in a well-formed store).
    pub open spec fn index_of(self, k: usize) -> int {
        choose|i: int| 0 <= i < self.mem@.len() && (#[trigger] self.mem@[i]).0 == k
    }

    /// The item stored under the key.
    pub open spec fn item_at(self, k: usize) -> Item<Payload> {
        self.mem@[self.index_of(k)].1
    }

    /// In a well-formed store each entry is the one its key resolves to.
    pub proof fn lemma_entry(self, i: int)
        requires
            self.wf(),
            0 <= i < self.mem@.len(),
        ensures
            self.has_key(self.mem@[i].0),
            self.index_of(self.mem@[i].0) == i,
            self.item_at(self.mem@[i].0) == self.mem@[i].1,
    {
        let k = self.mem@[i].0;
        assert(self.has_key(k));
        let j = self.index_of(k);
        assert(0 <= j < self.mem@.len() && self.mem@[j].0 == k);
        if i < j {
            assert(self.mem@[i].0 != self.mem@[j].0);
        } else if j < i {
            assert(self.mem@[j].0 != self.mem@[i].0);
        }
    }

    /// A fresh, empty store stamped with the given version timestamp.
    pub fn new(version: i64) -> (s: InMemory<Payload>)
        ensures
            s.wf(),
            s.version == version,
            s.next_id == 0,
            s.mem@.len() == 0,
    {
        InMemory { version, next_id: 0, mem: Vec::new() }
    }

    /// Looks the key up; an absent key is an `Option`, never an error.
    #[verifier::loop_isolation(false)]
    pub fn get(&self, id: usize) -> (r: Option<&Item<Payload>>)
        requires
            self.wf(),
        ensures
            r is Some <==> self.has_key(id),
            r matches Some(item) ==> *item == self.item_at(id),
    {
        let n = self.mem.len();
        let mut i: usize = 0;
        while i < n
            invariant
                i <= n,
                forall|j: int| 0 <= j < i ==> (#[trigger] self.mem@[j]).0 != id,
            decreases n - i,
        {
            if self.mem[i].0 == id {
                proof {
                    self.lemma_entry(i as int);
                }
                return Some(&self.mem[i].1);
            }
            i = i + 1;
        }
        proof {
            if self.has_key(id) {
                let j = self.index_of(id);
                assert(0 <= j < self.mem@.len() && self.mem@[j].0 == id);
            }
        }
        None
    }

    /// Introduces a payload as a brand-new item: allocates the next
    /// unused key, stores the item at its initial state (repetition 0,
    /// ease 2.5, due at once) and returns the key.
    pub fn introduce(&mut self, payload: Payload) -> (id: usize)
        requires
            old(self).wf(),
            old(self).next_id < usize::MAX,
        ensures
            final(self).wf(),
            id == old(self).next_id,
            !old(self).has_key(id),
            final(self).next_id == old(self).next_id + 1,
            final(self).version == old(self).version,
            final(self).has_key(id),
            final(self).item_at(id) == (Item {
                repetition: 0usize,
                factor: 250usize,
                interval: 0usize,
                payload,
            }),
            forall|k: usize| k != id ==> (final(self).has_key(k) <==> old(self).has_key(k)),
            forall|k: usize|
                k != id && old(self).has_key(k) ==> final(self).item_at(k) == old(self).item_at(
                    k,
                ),
    {
        let id = self.next_id;
        let item = Item { repetition: 0usize, factor: 250usize, interval: 0usize, payload };
        let ghost gitem = item;
        self.mem.push((id, item));
        self.next_id = self.next_id + 1;
        proof {
            let oldm = old(self).mem@;
            let newm = self.mem@;
            assert(newm == oldm.push((id, gitem)));
            if old(self).has_key(id) {
                let j = old(self).index_of(id);
                assert(0 <= j < oldm.len() && oldm[j].0 == id);
            }
            assert forall|i: int, j: int| 0 <= i < j < newm.len() implies (#[trigger] newm[i]).0
                != (#[trigger] newm[j]).0 by {
                if j < newm.len() - 1 {
                    assert(old(self).wf());
                } else {
                    assert(newm[j].0 == id);
                    assert(oldm[i].0 < id);
                }
            }
            self.lemma_entry(newm.len() - 1);
            assert forall|k: usize| k != id implies (self.has_key(k) <==> old(self).has_key(k)) by {
                if self.has_key(k) {
                    let i = self.index_of(k);
                    assert(0 <= i < newm.len() && newm[i].0 == k);
                    assert(i < oldm.len());
                    assert(old(self).has_key(k));
                }
                if old(self).has_key(k) {
                    let i = old(self).index_of(k);
                    assert(0 <= i < oldm.len() && oldm[i].0 == k);
                    assert(newm[i].0 == k);
                    assert(self.has_key(k));
                }
            }
            assert forall|k: usize| k != id && old(self).has_key(k) implies self.item_at(k) == old(
                self,
            ).item_at(k) by {
                let i = old(self).index_of(k);
                assert(0 <= i < oldm.len() && oldm[i].0 == k);
                old(self).lemma_entry(i);
                assert(newm[i].0 == k);
                self.lemma_entry(i);
            }
        }
        id
    }

    /// One retrieval pass: collects the keys of all due items, and, when
    /// the call counts as a calendar day, counts every pending interval
    /// down by one. Always succeeds; the order of the due keys carries
    /// no meaning.
    #[verifier::loop_isolation(false)]
    pub fn retrieve_ids(&mut self, count_as_a_day: bool) -> (r: Vec<usize>)
        requires
            old(self).wf(),
        ensures
            final(self).wf(),
            final(self).next_id == old(self).next_id,
            final(self).version == old(self).version,
            final(self).mem@.len() == old(self).mem@.len(),
            forall|k: usize| final(self).has_key(k) <==> old(self).has_key(k),
            forall|k: usize|
                old(self).has_key(k) ==> final(self).item_at(k) == elapse_item(
                    old(self).item_at(k),
                    count_as_a_day,
                ),
            r@ == due_keys(old(self).mem@),
            forall|k: usize|
                r@.contains(k) <==> (old(self).has_key(k) && old(self).item_at(k).interval
                    == 0),
            forall|i: int, j: int| 0 <= i < j < r@.len() ==> r@[i] != r@[j],
            forall|i: int|
                0 <= i < r@.len() ==> old(self).has_key(#[trigger] r@[i]) && old(self).item_at(
                    r@[i],
                ).interval == 0,
    {
        let mut ans: Vec<usize> = Vec::new();
        let n = self.mem.len();
        let mut i: usize = 0;
        while i < n
            invariant
                i <= n,
                self.mem@.len() == n,
                self.next_id == old(self).next_id,
                self.version == old(self).version,
                forall|j: int| i <= j < n ==> self.mem@[j] == old(self).mem@[j],
                forall|j: int|
                    0 <= j < i ==> (#[trigger] self.mem@[j]).0 == old(self).mem@[j].0
                        && self.mem@[j].1 == elapse_item(old(self).mem@[j].1, count_as_a_day),
                ans@ == due_keys(old(self).mem@.take(i as int)),
            decreases n - i,
        {
            if self.mem[i].1.interval == 0 {
                ans.push(self.mem[i].0);
            } else if count_as_a_day {
                let v = self.mem[i].1.interval;
                self.mem[i].1.interval = v - 1;
            }
            proof {
                let pre = old(self).mem@.take(i as int);
                let cur = old(self).mem@.take(i + 1);
                assert(cur.drop_last() =~= pre);
                assert(cur.last() == old(self).mem@[i as int]);
            }
            i = i + 1;
        }
        proof {
            assert(old(self).mem@.take(n as int) =~= old(self).mem@);
            assert forall|k: usize| self.has_key(k) <==> old(self).has_key(k) by {
                if self.has_key(k) {
                    let w = self.index_of(k);
                    assert(0 <= w < self.mem@.len() && self.mem@[w].0 == k);
                    assert(old(self).mem@[w].0 == k);
                    assert(old(self).has_key(k));
                }
                if old(self).has_key(k) {
                    let w = old(self).index_of(k);
                    assert(0 <= w < old(self).mem@.len() && old(self).mem@[w].0 == k);
                    assert(self.mem@[w].0 == k);
                    assert(self.has_key(k));
                }
            }
            assert(self.wf());
            assert forall|k: usize| old(self).has_key(k) implies self.item_at(k) == elapse_item(
                old(self).item_at(k),
                count_as_a_day,
            ) by {
                let w = old(self).index_of(k);
                assert(0 <= w < old(self).mem@.len() && old(self).mem@[w].0 == k);
                old(self).lemma_entry(w);
                assert(self.mem@[w].0 == k);
                self.lemma_entry(w);
            }
            assert forall|k: usize| ans@.contains(k) <==> (old(self).has_key(k) && old(
                self,
            ).item_at(k).interval == 0) by {
                lemma_due_keys_contains(old(self).mem@, k);
                if ans@.contains(k) {
                    let w = choose|w: int|
                        0 <= w < old(self).mem@.len() && (#[trigger] old(self).mem@[w]).0 == k
                            && old(self).mem@[w].1.interval == 0;
                    old(self).lemma_entry(w);
                }
                if old(self).has_key(k) && old(self).item_at(k).interval == 0 {
                    let w = old(self).index_of(k);
                    assert(0 <= w < old(self).mem@.len() && old(self).mem@[w].0 == k);
                    old(self).lemma_entry(w);
                    assert(old(self).mem@[w].1.interval == 0);
                }
            }
            lemma_due_keys_distinct(old(self).mem@);
            assert forall|j: int| 0 <= j < ans@.len() implies old(self).has_key(
                #[trigger] ans@[j],
            ) && old(self).item_at(ans@[j]).interval == 0 by {
                assert(ans@.contains(ans@[j]));
            }
        }
        ans
    }

    /// The position of the key's entry, if any.
    #[verifier::loop_isolation(false)]
    fn find_index(&self, id: usize) -> (r: Option<usize>)
        requires
            self.wf(),
        ensures
            r is Some <==> self.has_key(id),
            r matches Some(j) ==> j < self.mem@.len() && self.mem@[j as int].0 == id
                && self.index_of(id) == j,
    {
        let n = self.mem.len();
        let mut i: usize = 0;
        while i < n
            invariant
                i <= n,
                forall|j: int| 0 <= j < i ==> (#[trigger] self.mem@[j]).0 != id,
            decreases n - i,
        {
            if self.mem[i].0 == id {
                proof {
                    self.lemma_entry(i as int);
                }
                return Some(i);
            }
            i = i + 1;
        }
        proof {
            if self.has_key(id) {
                let j = self.index_of(id);
                assert(0 <= j < self.mem@.len() && self.mem@[j].0 == id);
            }
        }
        None
    }

    /// Applies one review with the given grade to the item under `id`:
    /// the factor is shifted by the grade's delta and clamped at the 1.3
    /// floor, the repetition count is reset on a lapse (clamped factor
    /// below 3.0) and raised by two otherwise, the interval is
    /// recomputed from scratch for the new pair, and the store's version
    /// timestamp is refreshed. A key with no item fails with
    /// `Error::NotFound` and changes nothing.
    pub fn update(&mut self, id: usize, quality: Quality) -> (r: Result<(), crate::review::Error>)
        requires
            old(self).wf(),
            old(self).has_key(id) ==> can_review(old(self).item_at(id)),
        ensures
            final(self).wf(),
            final(self).next_id == old(self).next_id,
            final(self).mem@.len() == old(self).mem@.len(),
            r is Ok <==> old(self).has_key(id),
            r is Err ==> *final(self) == *old(self) && r == Err::<(), crate::review::Error>(
                crate::review::Error::NotFound,
            ),
            forall|k: usize| final(self).has_key(k) <==> old(self).has_key(k),
            forall|i: int|
                0 <= i < final(self).mem@.len() ==> (#[trigger] final(self).mem@[i]).0 == old(
                    self,
                ).mem@[i].0,
            r is Ok ==> final(self).item_at(id) == apply_review(old(self).item_at(id), quality),
            forall|k: usize|
                k != id && old(self).has_key(k) ==> final(self).item_at(k) == old(self).item_at(
                    k,
                ),
    {
        let j = match self.find_index(id) {
            Some(j) => j,
            None => {
                return Err(crate::review::Error::NotFound);
            },
        };
        proof {
            self.lemma_entry(j as int);
        }
        let f = self.mem[j].1.factor;
        let rep = self.mem[j].1.repetition;
        let nf = advance_factor(f, &quality);
        let nr = if nf < 300 {
            0
        } else {
            rep + 2
        };
        self.mem[j].1.factor = nf;
        self.mem[j].1.repetition = nr;
        let niv = self.mem[j].1.new_interval(nr);
        self.mem[j].1.interval = niv;
        self.version = now_timestamp();
        proof {
            let oldm = old(self).mem@;
            let newm = self.mem@;
            assert(newm.len() == oldm.len());
            assert(forall|i: int| 0 <= i < newm.len() && i != j ==> newm[i] == oldm[i]);
            assert(newm[j as int].0 == id);
            assert(self.wf());
            assert forall|k: usize| self.has_key(k) <==> old(self).has_key(k) by {
                if self.has_key(k) {
                    let w = self.index_of(k);
                    assert(0 <= w < newm.len() && newm[w].0 == k);
                    assert(oldm[w].0 == k);
                    assert(old(self).has_key(k));
                }
                if old(self).has_key(k) {
                    let w = old(self).index_of(k);
                    assert(0 <= w < oldm.len() && oldm[w].0 == k);
                    assert(newm[w].0 == k);
                    assert(self.has_key(k));
                }
            }
            self.lemma_entry(j as int);
            assert(self.item_at(id) == apply_review(old(self).item_at(id), quality));
            assert forall|k: usize| k != id && old(self).has_key(k) implies self.item_at(k)
                == old(self).item_at(k) by {
                let w = old(self).index_of(k);
                assert(0 <= w < oldm.len() && oldm[w].0 == k);
                old(self).lemma_entry(w);
                assert(newm[w].0 == k);
                self.lemma_entry(w);
                assert(w != j);
            }
        }
        Ok(())
    }
}

/// Relies on `chrono::Local::now` and `DateTime::timestamp_millis` for
/// the current wall-clock time in milliseconds; nothing is promised of
/// the value returned.
#[verifier::external_body]
fn now_timestamp() -> (t: i64) {
    chrono::Local::now().timestamp_millis()
}

/// A vocabulary word: the word itself and a reference to its detail
/// content (resolved outside the core).
#[derive(Debug, Clone)]
pub struct Word {
    pub word: String,
    pub detail: String,
}

/// The entries that survive deleting every item whose word equals
/// `name`, keeping their order.
pub open spec fn surviving(s: Seq<(usize, Item<Word>)>, name: Seq<char>) -> Seq<
    (usize, Item<Word>),
>
    decreases s.len(),
{
    if s.len() == 0 {
        Seq::empty()
    } else {
        let rest = surviving(s.drop_last(), name);
        if s.last().1.payload.word@ == name {
            rest
        } else {
            rest.push(s.last())
        }
    }
}

/// Each surviving entry is an entry of the given sequence whose word
/// differs from the name, and every such entry survives.
proof fn lemma_surviving_entries(s: Seq<(usize, Item<Word>)>, name: Seq<char>)
    ensures
        forall|j: int|
            0 <= j < surviving(s, name).len() ==> s.contains(#[trigger] surviving(s, name)[j])
                && surviving(s, name)[j].1.payload.word@ != name,
        forall|i: int|
            0 <= i < s.len() && (#[trigger] s[i]).1.payload.word@ != name ==> surviving(
                s,
                name,
            ).contains(s[i]),
    decreases s.len(),
{
    if s.len() > 0 {
        let rest = s.drop_last();
        let surv = surviving(s, name);
        lemma_surviving_entries(rest, name);
        assert(forall|i: int| 0 <= i < rest.len() ==> rest[i] == s[i]);
        assert forall|j: int| 0 <= j < surv.len() implies s.contains(#[trigger] surv[j])
            && surv[j].1.payload.word@ != name by {
            if s.last().1.payload.word@ != name && j == surv.len() - 1 {
                assert(surv[j] == s[s.len() - 1]);
                assert(s.contains(surv[j]));
            } else {
                assert(surv[j] == surviving(rest, name)[j]);
                assert(rest.contains(surv[j]));
                let w = choose|w: int| 0 <= w < rest.len() && rest[w] == surv[j];
                assert(s[w] == surv[j]);
                assert(s.contains(surv[j]));
            }
        }
        assert forall|i: int|
            0 <= i < s.len() && (#[trigger] s[i]).1.payload.word@ != name implies surv.contains(
            s[i],
        ) by {
            if i == s.len() - 1 {
                assert(surv[surv.len() - 1] == s[i]);
                assert(surv.contains(s[i]));
            } else {
                assert(rest[i] == s[i]);
                assert(surviving(rest, name).contains(s[i]));
                let w = choose|w: int|
                    0 <= w < surviving(rest, name).len() && surviving(rest, name)[w] == s[i];
                assert(surv[w] == s[i]);
                assert(surv.contains(s[i]));
            }
        }
    }
}

/// Distinct entry keys stay distinct across the deletion.
proof fn lemma_surviving_distinct(s: Seq<(usize, Item<Word>)>, name: Seq<char>)
    requires
        forall|i: int, j: int|
            0 <= i < j < s.len() ==> (#[trigger] s[i]).0 != (#[trigger] s[j]).0,
    ensures
        forall|i: int, j: int|
            0 <= i < j < surviving(s, name).len() ==> (#[trigger] surviving(s, name)[i]).0 != (
            #[trigger] surviving(s, name)[j]).0,
    decreases s.len(),
{
    if s.len() > 0 {
        let rest = s.drop_last();
        let surv = surviving(s, name);
        assert(forall|i: int| 0 <= i < rest.len() ==> rest[i] == s[i]);
        lemma_surviving_distinct(rest, name);
        lemma_surviving_entries(rest, name);
        if s.last().1.payload.word@ != name {
            assert forall|i: int, j: int| 0 <= i < j < surv.len() implies (
            #[trigger] surv[i]).0 != (#[trigger] surv[j]).0 by {
                if j < surv.len() - 1 {
                    assert(surv[i] == surviving(rest, name)[i]);
                    assert(surv[j] == surviving(rest, name)[j]);
                } else {
                    assert(surv[j] == s[s.len() - 1]);
                    assert(surv[i] == surviving(rest, name)[i]);
                    assert(rest.contains(surv[i]));
                    let w = choose|w: int| 0 <= w < rest.len() && rest[w] == surv[i];
                    assert(s[w] == surv[i]);
                    assert(s[w].0 != s[s.len() - 1].0);
                }
            }
        }
    }
}

impl InMemory<Word> {
    /// Deletes every item whose word equals `name`; everything else —
    /// surviving items, the next-key counter, the version timestamp —
    /// stays as it was, so deleted keys are never reused.
    #[verifier::loop_isolation(false)]
    #[verifier::rlimit(40)]
    pub fn remove_matching(&mut self, name: &String)
        requires
            old(self).wf(),
        ensures
            final(self).wf(),
            final(self).next_id == old(self).next_id,
            final(self).version == old(self).version,
            final(self).mem@ == surviving(old(self).mem@, name@),
            forall|k: usize|
                final(self).has_key(k) <==> (old(self).has_key(k) && old(self).item_at(
                    k,
                ).payload.word@ != name@),
            forall|k: usize|
                final(self).has_key(k) ==> final(self).item_at(k) == old(self).item_at(k),
    {
        let ghost n0 = old(self).mem@.len();
        let ghost mut g: int = 0;
        let mut i: usize = 0;
        while i < self.mem.len()
            invariant
                0 <= g <= n0,
                i == surviving(old(self).mem@.take(g), name@).len(),
                self.mem@ == surviving(old(self).mem@.take(g), name@) + old(self).mem@.skip(g),
                self.next_id == old(self).next_id,
                self.version == old(self).version,
            decreases n0 - g,
        {
            proof {
                assert(old(self).mem@.skip(g).len() > 0);
                assert(self.mem@[i as int] == old(self).mem@.skip(g)[0]);
                assert(old(self).mem@.skip(g)[0] == old(self).mem@[g]);
                assert(old(self).mem@.take(g + 1).drop_last() =~= old(self).mem@.take(g));
                assert(old(self).mem@.take(g + 1).last() == old(self).mem@[g]);
            }
            if self.mem[i].1.payload.word == *name {
                self.mem.remove(i);
                proof {
                    assert(surviving(old(self).mem@.take(g + 1), name@) == surviving(
                        old(self).mem@.take(g),
                        name@,
                    ));
                    assert(self.mem@ =~= surviving(old(self).mem@.take(g + 1), name@) + old(
                        self,
                    ).mem@.skip(g + 1));
                }
            } else {
                proof {
                    assert(surviving(old(self).mem@.take(g + 1), name@) == surviving(
                        old(self).mem@.take(g),
                        name@,
                    ).push(old(self).mem@[g]));
                    assert(self.mem@ =~= surviving(old(self).mem@.take(g + 1), name@) + old(
                        self,
                    ).mem@.skip(g + 1));
                }
                i = i + 1;
            }
            proof {
                g = g + 1;
            }
        }
        proof {
            assert(old(self).mem@.skip(g).len() == 0);
            assert(g == n0);
            assert(old(self).mem@.take(g) =~= old(self).mem@);
            assert(self.mem@ =~= surviving(old(self).mem@, name@));
            let oldm = old(self).mem@;
            let surv = surviving(oldm, name@);
            lemma_surviving_entries(oldm, name@);
            lemma_surviving_distinct(oldm, name@);
            assert forall|j: int|
                0 <= j < surv.len() implies (#[trigger] surv[j]).0 < self.next_id
                && surv[j].1.factor >= 130 by {
                assert(oldm.contains(surv[j]));
                let w = choose|w: int| 0 <= w < oldm.len() && oldm[w] == surv[j];
            }
            assert(self.wf());
            assert forall|k: usize| self.has_key(k) implies (old(self).has_key(k) && old(
                self,
            ).item_at(k).payload.word@ != name@ && self.item_at(k) == old(self).item_at(k)) by {
                let w = self.index_of(k);
                assert(0 <= w < surv.len() && surv[w].0 == k);
                self.lemma_entry(w);
                assert(oldm.contains(surv[w]));
                let v = choose|v: int| 0 <= v < oldm.len() && oldm[v] == surv[w];
                old(self).lemma_entry(v);
            }
            assert forall|k: usize|
                old(self).has_key(k) && old(self).item_at(k).payload.word@
                    != name@ implies self.has_key(k) by {
                let v = old(self).index_of(k);
                assert(0 <= v < oldm.len() && oldm[v].0 == k);
                old(self).lemma_entry(v);
                assert(oldm[v].1.payload.word@ != name@);
                assert(surv.contains(oldm[v]));
                let w = choose|w: int| 0 <= w < surv.len() && surv[w] == oldm[v];
                assert(self.mem@[w].0 == k);
            }
        }
    }
}

/// Law: a freshly introduced item is due at once — because its interval
/// starts at zero, its key is in the due list of the very next
/// retrieval pass.
pub proof fn lemma_introduced_is_due<Payload>(s: InMemory<Payload>, k: usize)
    requires
        s.wf(),
        s.has_key(k),
        s.item_at(k).interval == 0,
    ensures
        due_keys(s.mem@).contains(k),
{
    let w = s.index_of(k);
    assert(0 <= w < s.mem@.len() && s.mem@[w].0 == k);
    s.lemma_entry(w);
    lemma_due_keys_contains(s.mem@, k);
}

/// The embedding-facing application state: the store plus the flag
/// saying whether a retrieval pass counts as an elapsed calendar day.
#[derive(Debug)]
pub struct App {
    pub count_as_a_day: bool,
    pub db: InMemory<Word>,
}

impl App {
    /// Adds a word as a brand-new item at the initial scheduling state,
    /// under the next unused key.
    pub fn add(&mut self, word: Word)
        requires
            old(self).db.wf(),
            old(self).db.next_id < usize::MAX,
        ensures
            final(self).db.wf(),
            final(self).count_as_a_day == old(self).count_as_a_day,
            final(self).db.next_id == old(self).db.next_id + 1,
            final(self).db.version == old(self).db.version,
            final(self).db.has_key(old(self).db.next_id),
            final(self).db.item_at(old(self).db.next_id) == (Item {
                repetition: 0usize,
                factor: 250usize,
                interval: 0usize,
                payload: word,
            }),
            forall|k: usize|
                k != old(self).db.next_id ==> (final(self).db.has_key(k) <==> old(
                    self,
                ).db.has_key(k)),
            forall|k: usize|
                k != old(self).db.next_id && old(self).db.has_key(k) ==> final(self).db.item_at(
                    k,
                ) == old(self).db.item_at(k),
    {
        let _id: usize = self.db.introduce(word);
    }

    /// Looks a key up in the store.
    pub fn get(&self, id: usize) -> (r: Option<&Item<Word>>)
        requires
            self.db.wf(),
        ensures
            r is Some <==> self.db.has_key(id),
            r matches Some(item) ==> *item == self.db.item_at(id),
    {
        self.db.get(id)
    }

    /// One retrieval pass with this application's day-counting flag.
    pub fn retrieve(&mut self) -> (r: Result<Vec<usize>, crate::review::Error>)
        requires
            old(self).db.wf(),
        ensures
            final(self).db.wf(),
            final(self).count_as_a_day == old(self).count_as_a_day,
            final(self).db.next_id == old(self).db.next_id,
            final(self).db.version == old(self).db.version,
            r is Ok,
            r matches Ok(ids) ==> {
                &&& ids@ == due_keys(old(self).db.mem@)
                &&& forall|k: usize|
                    ids@.contains(k) <==> (old(self).db.has_key(k) && old(self).db.item_at(
                        k,
                    ).interval == 0)
            },
            forall|k: usize| final(self).db.has_key(k) <==> old(self).db.has_key(k),
            forall|k: usize|
                old(self).db.has_key(k) ==> final(self).db.item_at(k) == elapse_item(
                    old(self).db.item_at(k),
                    old(self).count_as_a_day,
                ),
    {
        let count = self.count_as_a_day;
        Ok(self.db.retrieve_ids(count))
    }

    /// Applies one review to the item under the key.
    pub fn update(&mut self, id: usize, quality: Quality) -> (r: Result<
        (),
        crate::review::Error,
    >)
        requires
            old(self).db.wf(),
            old(self).db.has_key(id) ==> can_review(old(self).db.item_at(id)),
        ensures
            final(self).db.wf(),
            final(self).count_as_a_day == old(self).count_as_a_day,
            final(self).db.next_id == old(self).db.next_id,
            r is Ok <==> old(self).db.has_key(id),
            r is Err ==> final(self).db == old(self).db && r == Err::<(), crate::review::Error>(
                crate::review::Error::NotFound,
            ),
            forall|k: usize| final(self).db.has_key(k) <==> old(self).db.has_key(k),
            r is Ok ==> final(self).db.item_at(id) == apply_review(
                old(self).db.item_at(id),
                quality,
            ),
            forall|k: usize|
                k != id && old(self).db.has_key(k) ==> final(self).db.item_at(k) == old(
                    self,
                ).db.item_at(k),
    {
        self.db.update(id, quality)
    }
}

impl<Payload> crate::review::Retriever<Payload> for InMemory<Payload> {
    open spec fn inv(&self) -> bool {
        self.wf()
    }

    fn get(&self, id: usize) -> (r: Option<&Item<Payload>>)
        ensures
            r is Some <==> self.has_key(id),
            r matches Some(item) ==> *item == self.item_at(id),
    {
        InMemory::get(self, id)
    }

    fn retrieve(&mut self) -> (r: Result<Vec<usize>, crate::review::Error>)
        ensures
            final(self).next_id == old(self).next_id,
            final(self).version == old(self).version,
            r is Ok,
            r matches Ok(ids) ==> ids@ == due_keys(old(self).mem@),
            r matches Ok(ids) ==> forall|k: usize|
                ids@.contains(k) <==> (old(self).has_key(k) && old(self).item_at(k).interval
                    == 0),
            forall|k: usize| final(self).has_key(k) <==> old(self).has_key(k),
            forall|k: usize|
                old(self).has_key(k) ==> final(self).item_at(k) == elapse_item(
                    old(self).item_at(k),
                    true,
                ),
    {
        Ok(self.retrieve_ids(true))
    }
}

impl<Payload> crate::review::Update for InMemory<Payload> {
    open spec fn upd_inv(&self) -> bool {
        self.wf()
    }

    open spec fn upd_ready(&self, id: usize) -> bool {
        self.has_key(id) ==> can_review(self.item_at(id))
    }

    fn update(&mut self, id: usize, quality: Quality) -> (r: Result<(), crate::review::Error>)
        ensures
            final(self).next_id == old(self).next_id,
            r is Ok <==> old(self).has_key(id),
            r is Err ==> *final(self) == *old(self) && r == Err::<(), crate::review::Error>(
                crate::review::Error::NotFound,
            ),
            forall|k: usize| final(self).has_key(k) <==> old(self).has_key(k),
            r is Ok ==> final(self).item_at(id) == apply_review(old(self).item_at(id), quality),
            forall|k: usize|
                k != id && old(self).has_key(k) ==> final(self).item_at(k) == old(self).item_at(
                    k,
                ),
    {
        InMemory::update(self, id, quality)
    }
}

impl crate::review::Retriever<Word> for App {
    open spec fn inv(&self) -> bool {
        self.db.wf()
    }

    fn get(&self, id: usize) -> (r: Option<&Item<Word>>)
        ensures
            r is Some <==> self.db.has_key(id),
            r matches Some(item) ==> *item == self.db.item_at(id),
    {
        App::get(self, id)
    }

    fn retrieve(&mut self) -> (r: Result<Vec<usize>, crate::review::Error>)
        ensures
            final(self).count_as_a_day == old(self).count_as_a_day,
            final(self).db.next_id == old(self).db.next_id,
            r is Ok,
            r matches Ok(ids) ==> ids@ == due_keys(old(self).db.mem@),
            r matches Ok(ids) ==> forall|k: usize|
                ids@.contains(k) <==> (old(self).db.has_key(k) && old(self).db.item_at(
                    k,
                ).interval == 0),
            forall|k: usize| final(self).db.has_key(k) <==> old(self).db.has_key(k),
            forall|k: usize|
                old(self).db.has_key(k) ==> final(self).db.item_at(k) == elapse_item(
                    old(self).db.item_at(k),
                    old(self).count_as_a_day,
                ),
    {
        App::retrieve(self)
    }
}

impl crate::review::Update for App {
    open spec fn upd_inv(&self) -> bool {
        self.db.wf()
    }

    open spec fn upd_ready(&self, id: usize) -> bool {
        self.db.has_key(id) ==> can_review(self.db.item_at(id))
    }

    fn update(&mut self, id: usize, quality: Quality) -> (r: Result<(), crate::review::Error>)
        ensures
            final(self).count_as_a_day == old(self).count_as_a_day,
            final(self).db.next_id == old(self).db.next_id,
            r is Ok <==> old(self).db.has_key(id),
            r is Err ==> final(self).db == old(self).db && r == Err::<(), crate::review::Error>(
                crate::review::Error::NotFound,
            ),
            forall|k: usize| final(self).db.has_key(k) <==> old(self).db.has_key(k),
            r is Ok ==> final(self).db.item_at(id) == apply_review(
                old(self).db.item_at(id),
                quality,
            ),
            forall|k: usize|
                k != id && old(self).db.has_key(k) ==> final(self).db.item_at(k) == old(
                    self,
                ).db.item_at(k),
    {
        App::update(self, id, quality)
    }
}

} // verus!


