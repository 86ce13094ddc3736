use exercise_extractor::labels::MatchState;

#[test]
fn a_walk_starts_with_nothing_in_force_and_nothing_seen() {
    let state = MatchState::new(&[12, 47]);
    assert_eq!(state.requested, vec![12, 47]);
    assert_eq!(state.active, None);
    assert_eq!(state.unseen, vec![12, 47]);
    assert!(!state.all_seen());
    assert!(MatchState::new(&[]).all_seen());
}

#[test]
fn pages_before_the_first_announcement_are_not_selected() {
    let mut state = MatchState::new(&[12]);
    assert!(!state.observe(None));
    assert!(!state.observe(None));
    assert_eq!(state.active, None);
    assert!(!state.all_seen());
}

#[test]
fn no_sentinel_number_selects_the_pages_before_the_first_announcement() {
    let mut state = MatchState::new(&[-1, 0]);
    assert!(!state.observe(None));
    assert_eq!(state.unseen.len(), 2);
}

#[test]
fn an_announced_number_stays_in_force() {
    let mut state = MatchState::new(&[12]);
    assert!(state.observe(Some(12)));
    assert!(state.observe(None));
    assert!(state.observe(None));
    assert_eq!(state.active, Some(12));
    assert!(!state.observe(Some(13)));
    assert!(!state.observe(None));
    assert_eq!(state.active, Some(13));
    assert!(state.observe(Some(12)));
}

#[test]
fn an_announced_number_is_struck_from_the_unseen() {
    let mut state = MatchState::new(&[12, 47, 105]);
    state.observe(Some(47));
    let mut unseen = state.unseen.clone();
    unseen.sort();
    assert_eq!(unseen, vec![12, 105]);
    state.observe(Some(3));
    assert_eq!(state.unseen.len(), 2);
    state.observe(Some(12));
    assert_eq!(state.unseen, vec![105]);
    assert!(!state.all_seen());
    state.observe(Some(105));
    assert!(state.all_seen());
    assert_eq!(state.requested, vec![12, 47, 105]);
}

#[test]
fn a_number_requested_twice_is_seen_at_once() {
    let mut state = MatchState::new(&[5, 9, 5, 5]);
    assert!(state.observe(Some(5)));
    assert_eq!(state.unseen, vec![9]);
    assert!(state.observe(Some(9)));
    assert!(state.all_seen());
}
