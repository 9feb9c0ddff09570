//! Recall quality grades, the library's error taxonomy, and the review
//! session loop.

use vstd::prelude::*;

use crate::words::apply_review;
use crate::words::can_review;
use crate::words::due_keys;
use crate::words::elapse_item;
use crate::words::InMemory;
use crate::words::Item;

verus! {

/// Why an operation of the library failed.
#[derive(Debug, Clone, Copy, PartialEq, Eq, Structural)]
pub enum Error {
    /// A key had no corresponding item in the store.
    NotFound,
    /// A raw grade outside {0, 1, 3, 4, 5} was offered as a quality.
    InvalidQuality,
    /// The judging step kept failing until the retry budget ran out.
    JudgingFailure,
    /// Loading or saving a store failed; raised by the embedding layer.
    PersistenceFailure,
}

/// A self-assessed recall grade. The numeric values are 0 (complete
/// blackout), 1 (incorrect), 3 (correct but hard), 4 (correct) and
/// 5 (perfect); 2 is deliberately not a valid grade.
#[derive(Debug, Clone, Copy, PartialEq, Eq, Structural)]
pub enum Quality {
    CompleteBlackout,
    IncorrectResponse,
    CorrectResponseHard,
    CorrectResponse,
    PerfectResponse,
}

impl Quality {
    /// The numeric value of the grade.
    pub open spec fn spec_value(self) -> u8 {
        match self {
            Quality::CompleteBlackout => 0,
            Quality::IncorrectResponse => 1,
            Quality::CorrectResponseHard => 3,
            Quality::CorrectResponse => 4,
            Quality::PerfectResponse => 5,
        }
    }

    /// Whether a raw byte names a valid grade.
    pub open spec fn valid_raw(raw: u8) -> bool {
        raw == 0 || raw == 1 || raw == 3 || raw == 4 || raw == 5
    }

    pub fn value(&self) -> (v: u8)
        ensures
            v == self.spec_value(),
    {
        match self {
            Quality::CompleteBlackout => 0,
            Quality::IncorrectResponse => 1,
            Quality::CorrectResponseHard => 3,
            Quality::CorrectResponse => 4,
            Quality::PerfectResponse => 5,
        }
    }

    /// Builds a grade from its numeric value; every value outside
    /// {0, 1, 3, 4, 5} is rejected with `Error::InvalidQuality`.
    pub fn from(raw: u8) -> (r: Result<Quality, Error>)
        ensures
            r is Ok <==> Quality::valid_raw(raw),
            r matches Ok(q) ==> q.spec_value() == raw,
            r matches Err(e) ==> e == Error::InvalidQuality,
    {
        match raw {
            0 => Ok(Quality::CompleteBlackout),
            1 => Ok(Quality::IncorrectResponse),
            3 => Ok(Quality::CorrectResponseHard),
            4 => Ok(Quality::CorrectResponse),
            5 => Ok(Quality::PerfectResponse),
            _ => Err(Error::InvalidQuality),
        }
    }
}

/// A source of review items: lookup by key, and retrieval of the keys
/// due in the current pass.
pub trait Retriever<Payload> {
    /// The well-formedness the retriever maintains.
    spec fn inv(&self) -> bool;

    /// Looks an item up by key; absence is an `Option`, never an error.
    fn get(&self, id: usize) -> (r: Option<&Item<Payload>>)
        requires
            self.inv(),
    ;

    /// The keys due in the current pass.
    fn retrieve(&mut self) -> (r: Result<Vec<usize>, Error>)
        requires
            old(self).inv(),
        ensures
            final(self).inv(),
    ;
}

/// A sink for review outcomes: applies a grade to the item under a key.
pub trait Update {
    /// The well-formedness the updater maintains.
    spec fn upd_inv(&self) -> bool;

    /// Whether the item under the key, if any, can take one more review.
    spec fn upd_ready(&self, id: usize) -> bool;

    fn update(&mut self, id: usize, quality: Quality) -> (r: Result<(), Error>)
        requires
            old(self).upd_inv(),
            old(self).upd_ready(id),
        ensures
            final(self).upd_inv(),
    ;
}

/// The judging step a caller injects into a session: for one presented
/// item it returns a grade, `None` for an abort request, or an error,
/// which the session retries on the same item. Nothing is assumed of an
/// implementation.
pub trait Judge<Payload> {
    fn judge(&mut self, item: &Item<Payload>) -> Result<Option<Quality>, Error>;
}

/// A pass that applied the recorded grades to the first `idx` due keys
/// and left the rest alone got exactly that far.
proof fn lemma_prefix_from_grades<Payload>(
    orig: InMemory<Payload>,
    cur: InMemory<Payload>,
    ids: Seq<usize>,
    grades: Seq<Quality>,
    idx: int,
)
    requires
        grades.len() == idx,
        0 <= idx <= ids.len(),
        forall|j: int|
            0 <= j < idx ==> cur.item_at(#[trigger] ids[j]) == apply_review(
                orig.item_at(ids[j]),
                grades[j],
            ),
        forall|j: int| idx <= j < ids.len() ==> cur.item_at(#[trigger] ids[j]) == orig.item_at(ids[j]),
    ensures
        judged_prefix(orig, cur, ids, idx),
{
    assert forall|j: int| 0 <= j < idx implies reviewed_from(
        orig.item_at(#[trigger] ids[j]),
        cur.item_at(ids[j]),
    ) by {
        assert(cur.item_at(ids[j]) == apply_review(orig.item_at(ids[j]), grades[j]));
        assert(reviewed_from(orig.item_at(ids[j]), cur.item_at(ids[j])));
    }
}

/// The later item state is the earlier one with exactly one review
/// applied, under some grade.
pub open spec fn reviewed_from<Payload>(pre: Item<Payload>, post: Item<Payload>) -> bool {
    exists|q: Quality| post == apply_review(pre, q)
}

/// How far a pass got through its due list: the items under the first
/// `m` due keys each carry exactly one applied review, and every due
/// item from position `m` on is exactly as it was before the pass.
pub open spec fn judged_prefix<Payload>(
    pre: InMemory<Payload>,
    post: InMemory<Payload>,
    due: Seq<usize>,
    m: int,
) -> bool {
    &&& 0 <= m <= due.len()
    &&& forall|j: int|
        0 <= j < m ==> reviewed_from(pre.item_at(#[trigger] due[j]), post.item_at(due[j]))
    &&& forall|j: int|
        m <= j < due.len() ==> post.item_at(#[trigger] due[j]) == pre.item_at(due[j])
}

/// Runs one review pass over the store. The due keys are retrieved
/// first (the pass counts as an elapsed day when the flag is set); each
/// due item is then presented to the judge in turn. A failed judgment
/// is retried on the same item, up to `retry_limit` further attempts,
/// before the pass gives up with `Error::JudgingFailure`; a grade is
/// applied through the scheduler; an abort request stops the pass at
/// once, leaving every update already applied in place. Returns
/// `Ok(true)` when the pass was aborted and `Ok(false)` when every due
/// item was judged.
#[verifier::loop_isolation(false)]
pub fn logic<Payload, J: Judge<Payload>>(
    app: &mut InMemory<Payload>,
    count_as_a_day: bool,
    judge: &mut J,
    retry_limit: usize,
) -> (r: Result<bool, Error>)
    requires
        old(app).wf(),
        forall|k: usize| #[trigger] old(app).has_key(k) ==> can_review(old(app).item_at(k)),
    ensures
        final(app).wf(),
        final(app).next_id == old(app).next_id,
        forall|k: usize| final(app).has_key(k) <==> old(app).has_key(k),
        r matches Err(e) ==> e == Error::JudgingFailure,
        forall|k: usize|
            old(app).has_key(k) && old(app).item_at(k).interval > 0 ==> final(app).item_at(k)
                == elapse_item(old(app).item_at(k), count_as_a_day),
        forall|k: usize|
            old(app).has_key(k) && old(app).item_at(k).interval == 0 ==> (final(app).item_at(k)
                == old(app).item_at(k) || exists|q: Quality|
                final(app).item_at(k) == apply_review(old(app).item_at(k), q)),
        r == Ok::<bool, Error>(false) ==> forall|k: usize|
            old(app).has_key(k) && old(app).item_at(k).interval == 0 ==> exists|q: Quality|
                final(app).item_at(k) == apply_review(old(app).item_at(k), q),
        due_keys(old(app).mem@).len() == 0 ==> r == Ok::<bool, Error>(false),
        exists|m: int| judged_prefix(*old(app), *final(app), due_keys(old(app).mem@), m),
        r == Ok::<bool, Error>(false) ==> judged_prefix(
            *old(app),
            *final(app),
            due_keys(old(app).mem@),
            due_keys(old(app).mem@).len() as int,
        ),
{
    let ids = app.retrieve_ids(count_as_a_day);
    let n = ids.len();
    let mut idx: usize = 0;
    let ghost mut grades: Seq<Quality> = Seq::empty();
    while idx < n
        invariant
            idx <= n,
            app.wf(),
            app.next_id == old(app).next_id,
            forall|k: usize| app.has_key(k) <==> old(app).has_key(k),
            forall|k: usize|
                old(app).has_key(k) && old(app).item_at(k).interval > 0 ==> app.item_at(k)
                    == elapse_item(old(app).item_at(k), count_as_a_day),
            forall|k: usize|
                old(app).has_key(k) && old(app).item_at(k).interval == 0 ==> (app.item_at(k)
                    == old(app).item_at(k) || exists|q: Quality|
                    app.item_at(k) == apply_review(old(app).item_at(k), q)),
            forall|j: int|
                idx <= j < n ==> app.has_key(#[trigger] ids@[j]) && app.item_at(ids@[j]) == old(
                    app,
                ).item_at(ids@[j]),
            grades.len() == idx,
            forall|j: int|
                0 <= j < idx ==> app.item_at(#[trigger] ids@[j]) == apply_review(
                    old(app).item_at(ids@[j]),
                    grades[j],
                ),
        decreases n - idx,
    {
        let id = ids[idx];
        let item = match app.get(id) {
            Some(item) => item,
            None => {
                return Err(Error::NotFound);
            },
        };
        let mut outcome = judge.judge(item);
        let mut attempts: usize = 0;
        while outcome.is_err() && attempts < retry_limit
            invariant
                attempts <= retry_limit,
            decreases retry_limit - attempts,
        {
            outcome = judge.judge(item);
            attempts = attempts + 1;
        }
        let graded = match outcome {
            Err(_) => {
                proof {
                    lemma_prefix_from_grades(*old(app), *app, ids@, grades, idx as int);
                    assert(judged_prefix(*old(app), *app, due_keys(old(app).mem@), idx as int));
                }
                return Err(Error::JudgingFailure);
            },
            Ok(o) => o,
        };
        match graded {
            Some(q) => {
                let ghost pre = *app;
                match app.update(id, q) {
                    Ok(()) => {},
                    Err(e) => {
                        return Err(e);
                    },
                }
                proof {
                    assert forall|k: usize|
                        old(app).has_key(k) && old(app).item_at(k).interval
                            == 0 implies (app.item_at(k) == old(app).item_at(k) || exists|
                        qq: Quality,
                    |
                        app.item_at(k) == apply_review(old(app).item_at(k), qq)) by {
                        if k == id {
                            assert(app.item_at(id) == apply_review(old(app).item_at(id), q));
                        } else {
                            assert(app.item_at(k) == pre.item_at(k));
                        }
                    }
                    grades = grades.push(q);
                    assert forall|j: int| 0 <= j < idx + 1 implies app.item_at(
                        #[trigger] ids@[j],
                    ) == apply_review(old(app).item_at(ids@[j]), grades[j]) by {
                        if j == idx {
                            assert(grades[j] == q);
                            assert(app.item_at(ids@[j]) == apply_review(
                                old(app).item_at(ids@[j]),
                                q,
                            ));
                        } else {
                            assert(grades[j] == grades.drop_last()[j]);
                            assert(ids@[j] != id);
                            assert(app.item_at(ids@[j]) == pre.item_at(ids@[j]));
                        }
                    }
                }
            },
            None => {
                proof {
                    lemma_prefix_from_grades(*old(app), *app, ids@, grades, idx as int);
                    assert(judged_prefix(*old(app), *app, due_keys(old(app).mem@), idx as int));
                }
                return Ok(true);
            },
        }
        idx = idx + 1;
    }
    proof {
        assert forall|k: usize|
            old(app).has_key(k) && old(app).item_at(k).interval == 0 implies exists|q: Quality|
            app.item_at(k) == apply_review(old(app).item_at(k), q) by {
            assert(ids@.contains(k));
            let j = choose|j: int| 0 <= j < ids@.len() && ids@[j] == k;
            assert(app.item_at(ids@[j]) == apply_review(old(app).item_at(ids@[j]), grades[j]));
        }
        lemma_prefix_from_grades(*old(app), *app, ids@, grades, idx as int);
        assert(judged_prefix(
            *old(app),
            *app,
            due_keys(old(app).mem@),
            due_keys(old(app).mem@).len() as int,
        ));
    }
    Ok(false)
}

} // verus!
