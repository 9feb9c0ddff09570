use flame::review::{Error, Quality, Retriever, Update};
use flame::words::{App, InMemory, Item, Word};

fn word(w: &str) -> Word {
    Word { word: String::from(w), detail: String::from("detail") }
}

#[test]
fn introduce_assigns_fresh_keys_and_initial_state() {
    let mut s: InMemory<Word> = InMemory::new(7);
    let a = s.introduce(word("alpha"));
    let b = s.introduce(word("beta"));
    assert_eq!(a, 0);
    assert_eq!(b, 1);
    assert_eq!(s.next_id, 2);
    assert_eq!(s.version, 7);
    let it = s.get(a).expect("present");
    assert_eq!(it.repetition, 0);
    assert_eq!(it.factor, 250);
    assert_eq!(it.interval, 0);
    assert_eq!(it.payload.word, "alpha");
    assert!(s.get(9).is_none());
}

#[test]
fn introduced_item_is_due_in_the_next_retrieval() {
    let mut s: InMemory<Word> = InMemory::new(0);
    let id = s.introduce(word("alpha"));
    let due = s.retrieve_ids(false);
    assert!(due.contains(&id));
}

#[test]
fn day_elapse_decrements_pending_and_excludes_them() {
    let mut s: InMemory<Word> = InMemory::new(0);
    s.mem.push((0, Item { repetition: 2, factor: 250, interval: 5, payload: word("pending") }));
    s.mem.push((1, Item { repetition: 0, factor: 250, interval: 0, payload: word("due") }));
    s.next_id = 2;
    let due = s.retrieve_ids(true);
    assert_eq!(due, vec![1]);
    assert_eq!(s.get(0).expect("present").interval, 4);
    assert_eq!(s.get(1).expect("present").interval, 0);
}

#[test]
fn retrieval_without_day_flag_leaves_intervals_alone() {
    let mut s: InMemory<Word> = InMemory::new(0);
    s.mem.push((0, Item { repetition: 2, factor: 250, interval: 5, payload: word("pending") }));
    s.next_id = 1;
    let due = s.retrieve_ids(false);
    assert!(due.is_empty());
    assert_eq!(s.get(0).expect("present").interval, 5);
}

#[test]
fn updating_a_missing_key_fails_with_not_found() {
    let mut s: InMemory<Word> = InMemory::new(0);
    assert_eq!(s.update(42, Quality::PerfectResponse), Err(Error::NotFound));
}

#[test]
fn remove_matching_deletes_exact_word_matches_only() {
    let mut s: InMemory<Word> = InMemory::new(0);
    let a = s.introduce(word("alpha"));
    let b = s.introduce(word("beta"));
    let c = s.introduce(word("alpha"));
    s.remove_matching(&String::from("alpha"));
    assert!(s.get(a).is_none());
    assert!(s.get(c).is_none());
    assert_eq!(s.get(b).expect("present").payload.word, "beta");
    // Deleted keys are never reused.
    assert_eq!(s.next_id, 3);
    let d = s.introduce(word("gamma"));
    assert_eq!(d, 3);
}

#[test]
fn store_trait_retrieval_counts_a_day() {
    let mut s: InMemory<Word> = InMemory::new(0);
    s.mem.push((0, Item { repetition: 2, factor: 250, interval: 5, payload: word("pending") }));
    s.mem.push((1, Item { repetition: 0, factor: 250, interval: 0, payload: word("due") }));
    s.next_id = 2;
    let due = Retriever::retrieve(&mut s).expect("retrieval always succeeds");
    assert_eq!(due, vec![1]);
    assert_eq!(Retriever::get(&s, 0).expect("present").interval, 4);
    Update::update(&mut s, 1, Quality::PerfectResponse).expect("present");
    assert_eq!(Retriever::get(&s, 1).expect("present").factor, 260);
}

#[test]
fn app_add_delegates_to_the_store() {
    let mut app = App { count_as_a_day: false, db: InMemory::new(0) };
    app.add(word("alpha"));
    assert_eq!(app.db.next_id, 1);
    let it = app.get(0).expect("present");
    assert_eq!(it.payload.word, "alpha");
    assert_eq!(it.interval, 0);
    let due = app.retrieve().expect("retrieval always succeeds");
    assert_eq!(due, vec![0]);
    app.update(0, Quality::PerfectResponse).expect("present");
    assert_eq!(app.get(0).expect("present").factor, 260);
}
