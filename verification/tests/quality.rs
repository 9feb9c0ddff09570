use flame::review::{Error, Quality};

#[test]
fn invalid_raw_values_are_rejected() {
    assert_eq!(Quality::from(2), Err(Error::InvalidQuality));
    assert_eq!(Quality::from(6), Err(Error::InvalidQuality));
    assert_eq!(Quality::from(255), Err(Error::InvalidQuality));
}

#[test]
fn valid_raw_values_round_trip() {
    for raw in [0u8, 1, 3, 4, 5] {
        let q = Quality::from(raw).expect("valid grade");
        assert_eq!(q.value(), raw);
    }
}

#[test]
fn named_grades_have_their_values() {
    assert_eq!(Quality::CompleteBlackout.value(), 0);
    assert_eq!(Quality::IncorrectResponse.value(), 1);
    assert_eq!(Quality::CorrectResponseHard.value(), 3);
    assert_eq!(Quality::CorrectResponse.value(), 4);
    assert_eq!(Quality::PerfectResponse.value(), 5);
}
