use flame::review::{logic, Error, Judge, Quality};
use flame::words::{InMemory, Item, Word};

fn word(w: &str) -> Word {
    Word { word: String::from(w), detail: String::from("detail") }
}

/// A scripted judging step: hands out the scripted outcomes in order and
/// records how often it was called.
struct ScriptJudge {
    script: Vec<Result<Option<Quality>, Error>>,
    calls: usize,
}

impl ScriptJudge {
    fn new(script: Vec<Result<Option<Quality>, Error>>) -> ScriptJudge {
        ScriptJudge { script, calls: 0 }
    }
}

impl Judge<Word> for ScriptJudge {
    fn judge(&mut self, _item: &Item<Word>) -> Result<Option<Quality>, Error> {
        let ans = self.script[self.calls].clone();
        self.calls += 1;
        ans
    }
}

fn three_due_items() -> InMemory<Word> {
    let mut s: InMemory<Word> = InMemory::new(0);
    s.introduce(word("alpha"));
    s.introduce(word("beta"));
    s.introduce(word("gamma"));
    s
}

#[test]
fn completed_pass_judges_every_due_item() {
    let mut s = three_due_items();
    let mut judge = ScriptJudge::new(vec![
        Ok(Some(Quality::PerfectResponse)),
        Ok(Some(Quality::CompleteBlackout)),
        Ok(Some(Quality::CorrectResponse)),
    ]);
    let aborted = logic(&mut s, false, &mut judge, 0).expect("no failures scripted");
    assert!(!aborted);
    assert_eq!(judge.calls, 3);
    assert_eq!(s.get(0).expect("present").factor, 260);
    assert_eq!(s.get(1).expect("present").factor, 170);
    assert_eq!(s.get(2).expect("present").factor, 250);
}

#[test]
fn abort_preserves_partial_progress() {
    let mut s = three_due_items();
    let mut judge = ScriptJudge::new(vec![
        Ok(Some(Quality::PerfectResponse)),
        Ok(None),
    ]);
    let aborted = logic(&mut s, false, &mut judge, 0).expect("no failures scripted");
    assert!(aborted);
    assert_eq!(judge.calls, 2);
    // The first item's update is persisted ...
    assert_eq!(s.get(0).expect("present").factor, 260);
    // ... and the second and third are untouched.
    assert_eq!(s.get(1).expect("present").factor, 250);
    assert_eq!(s.get(1).expect("present").interval, 0);
    assert_eq!(s.get(2).expect("present").factor, 250);
    assert_eq!(s.get(2).expect("present").interval, 0);
}

#[test]
fn failed_judgments_are_retried_on_the_same_item() {
    let mut s = three_due_items();
    let mut judge = ScriptJudge::new(vec![
        Err(Error::PersistenceFailure),
        Err(Error::PersistenceFailure),
        Ok(Some(Quality::PerfectResponse)),
        Ok(Some(Quality::PerfectResponse)),
        Ok(Some(Quality::PerfectResponse)),
    ]);
    let aborted = logic(&mut s, false, &mut judge, 5).expect("retries succeed");
    assert!(!aborted);
    assert_eq!(judge.calls, 5);
    assert_eq!(s.get(0).expect("present").factor, 260);
    assert_eq!(s.get(1).expect("present").factor, 260);
    assert_eq!(s.get(2).expect("present").factor, 260);
}

#[test]
fn exhausted_retries_fail_the_pass() {
    let mut s = three_due_items();
    let mut judge = ScriptJudge::new(vec![
        Err(Error::PersistenceFailure),
        Err(Error::PersistenceFailure),
        Err(Error::PersistenceFailure),
    ]);
    let r = logic(&mut s, false, &mut judge, 2);
    assert_eq!(r, Err(Error::JudgingFailure));
    assert_eq!(judge.calls, 3);
    // Nothing was updated.
    assert_eq!(s.get(0).expect("present").factor, 250);
}

#[test]
fn an_empty_due_set_completes_without_judging() {
    let mut s: InMemory<Word> = InMemory::new(0);
    s.mem.push((0, Item { repetition: 2, factor: 250, interval: 4, payload: word("pending") }));
    s.next_id = 1;
    let mut judge = ScriptJudge::new(vec![]);
    let aborted = logic(&mut s, false, &mut judge, 0).expect("nothing to judge");
    assert!(!aborted);
    assert_eq!(judge.calls, 0);
    assert_eq!(s.get(0).expect("present").interval, 4);
}

#[test]
fn a_pass_with_the_day_flag_counts_a_day_for_pending_items() {
    let mut s: InMemory<Word> = InMemory::new(0);
    s.mem.push((0, Item { repetition: 2, factor: 250, interval: 3, payload: word("pending") }));
    s.mem.push((1, Item { repetition: 0, factor: 250, interval: 0, payload: word("due") }));
    s.next_id = 2;
    let mut judge = ScriptJudge::new(vec![Ok(Some(Quality::CorrectResponse))]);
    let aborted = logic(&mut s, true, &mut judge, 0).expect("no failures scripted");
    assert!(!aborted);
    assert_eq!(judge.calls, 1);
    assert_eq!(s.get(0).expect("present").interval, 2);
    assert_eq!(s.get(1).expect("present").factor, 250);
}
