use bullet_journal::clock::ClockTime;
use bullet_journal::codec::parse_bullets;
use bullet_journal::journal::JournalError;
use bullet_journal::notify::{meeting_key, notify_upcoming_meetings, upcoming_notices};
use bullet_journal::query::{bullet_matches, day_marker, meetings_by_time, notified_state_path, parse_priority_opt, DayMarker};

fn lines(v: &[&str]) -> Vec<String> {
    v.iter().map(|s| s.to_string()).collect()
}

const TEN: u32 = 10 * 3600;

#[test]
fn notify_twice_delivers_once() {
    let day = lines(&["- [ ] [mtg 10:10 30] Standup"]);
    let (first, state) = notify_upcoming_meetings("2025-11-06", &day, TEN, 0, 15, &Vec::new());
    assert_eq!(first.len(), 1);
    assert_eq!(first[0].key, "2025-11-06|10:10");
    assert_eq!(first[0].minutes, 10);
    assert_eq!(first[0].text, "Standup");
    let state = state.expect("state to remember");
    assert_eq!(state, vec!["2025-11-06|10:10".to_string()]);
    let (second, again) = notify_upcoming_meetings("2025-11-06", &day, TEN + 30, 0, 15, &state);
    assert!(second.is_empty());
    assert!(again.is_none());
}

#[test]
fn notify_keeps_previous_keys() {
    let day = lines(&["- [ ] [mtg 10:05] A"]);
    let sent = vec!["2025-11-05|09:00".to_string()];
    let (n, state) = notify_upcoming_meetings("2025-11-06", &day, TEN, 0, 15, &sent);
    assert_eq!(n.len(), 1);
    assert_eq!(state.unwrap(), vec!["2025-11-05|09:00".to_string(), "2025-11-06|10:05".to_string()]);
}

#[test]
fn notify_window_edges() {
    let day = lines(&["- [ ] [mtg 10:15] edge", "- [ ] [mtg 10:16] late", "- [ ] [mtg 09:59] past", "- [ ] plain"]);
    let bs = parse_bullets(&day);
    let n = upcoming_notices("d", &bs, TEN, 0, 15, &Vec::new());
    assert_eq!(n.len(), 1);
    assert_eq!(n[0].text, "edge");
    assert_eq!(n[0].minutes, 15);
}

#[test]
fn notify_minutes_truncate_with_fraction() {
    let day = lines(&["- [ ] [mtg 10:01] soon", "- [ ] [mtg 10:00] now"]);
    let bs = parse_bullets(&day);
    let n = upcoming_notices("d", &bs, TEN, 500_000_000, 15, &Vec::new());
    assert_eq!(n.len(), 2);
    assert_eq!(n[0].minutes, 0);
    assert_eq!(n[1].minutes, 0);
    let late = upcoming_notices("d", &bs, TEN + 60, 0, 15, &Vec::new());
    assert_eq!(late.len(), 1);
    assert_eq!(late[0].text, "soon");
}

#[test]
fn meeting_key_format() {
    assert_eq!(meeting_key("2025-01-02", ClockTime { hour: 9, minute: 5 }), "2025-01-02|09:05");
}

#[test]
fn priority_names() {
    assert_eq!(parse_priority_opt(None), Ok(None));
    assert_eq!(parse_priority_opt(Some("HIGH")), Ok(Some(3)));
    assert_eq!(parse_priority_opt(Some("Med")), Ok(Some(2)));
    assert_eq!(parse_priority_opt(Some("medium")), Ok(Some(2)));
    assert_eq!(parse_priority_opt(Some("l")), Ok(Some(1)));
    assert_eq!(parse_priority_opt(Some("3")), Ok(Some(3)));
    assert_eq!(parse_priority_opt(Some("Urgent")), Err(JournalError::InvalidPriority("urgent".to_string())));
}

#[test]
fn filters_need_priority_and_all_tags() {
    let day = lines(&["- [ ] (!!) a #x #y", "- [ ] b #x", "- [ ] (!!) c"]);
    let bs = parse_bullets(&day);
    let tags = vec!["x".to_string()];
    let picked: Vec<bool> = bs.iter().map(|b| bullet_matches(b, &tags, Some(2))).collect();
    assert_eq!(picked, vec![true, false, false]);
    let both = vec!["x".to_string(), "y".to_string()];
    let picked: Vec<bool> = bs.iter().map(|b| bullet_matches(b, &both, None)).collect();
    assert_eq!(picked, vec![true, false, false]);
    assert!(bs.iter().all(|b| bullet_matches(b, &Vec::new(), None)));
}

#[test]
fn calendar_markers() {
    assert_eq!(day_marker(&parse_bullets(&Vec::new())), DayMarker::Empty);
    assert_eq!(day_marker(&parse_bullets(&lines(&["- [x] a"]))), DayMarker::AllDone);
    assert_eq!(day_marker(&parse_bullets(&lines(&["- [x] a", "- [ ] b"]))), DayMarker::Open);
    assert_eq!(day_marker(&parse_bullets(&lines(&["- [x] [mtg 08:00] a", "- [ ] b"]))), DayMarker::Meeting);
}

#[test]
fn state_file_inside_data_dir() {
    assert_eq!(notified_state_path("/tmp/journal"), "/tmp/journal/notified.meetings");
}

#[test]
fn meetings_listed_by_time_ties_in_file_order() {
    let day = lines(&["- [ ] [mtg 14:00] late", "- [ ] plain", "- [ ] [mtg 09:30] first", "- [x] [mtg 14:00] also late", "- [ ] [mtg 9:5x] broken"]);
    let bs = parse_bullets(&day);
    assert_eq!(meetings_by_time(&bs), vec![2, 0, 3]);
    assert!(meetings_by_time(&Vec::new()).is_empty());
}
