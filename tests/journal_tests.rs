use bullet_journal::clock::ClockTime;
use bullet_journal::codec::parse_bullets;
use bullet_journal::journal::{add_bullet, add_meeting, delete_bullet, mark_done, migrate_one, migrate_open, Date, JournalError};
use chrono::{Datelike, Local};

fn date(year: i32, month: u32, day: u32) -> Date {
    Date { year, month, day }
}

fn today() -> Date {
    let t = Local::now().date_naive();
    date(t.year(), t.month(), t.day())
}

fn lines(v: &[&str]) -> Vec<String> {
    v.iter().map(|s| s.to_string()).collect()
}

#[test]
fn test_meeting_metadata() {
    let mut day: Vec<String> = Vec::new();
    add_meeting(&mut day, ClockTime { hour: 14, minute: 30 }, 45, "Team Sync", &vec!["work".to_string()], &vec!["Prep required".to_string()]);
    let bullets = parse_bullets(&day);
    assert_eq!(bullets.len(), 1, "Expected exactly one meeting bullet");
    let mtg = &bullets[0];
    assert_eq!(mtg.text, "Team Sync", "Meeting title mismatch");
    assert_eq!(mtg.meeting_time.unwrap().hhmm(), "14:30", "Meeting time mismatch");
    assert_eq!(mtg.meeting_duration_min, Some(45), "Meeting duration mismatch");
    assert_eq!(mtg.tags, vec!["work"], "Meeting tag mismatch");
    assert_eq!(mtg.notes, vec!["Prep required"], "Meeting note mismatch");
}

#[test]
fn test_add_and_parse_bullet() {
    let mut day: Vec<String> = Vec::new();
    add_bullet(&mut day, "Write tests", Some(2), &vec!["dev".to_string()], &vec!["first note".to_string()]);
    let bullets = parse_bullets(&day);
    assert_eq!(bullets.len(), 1, "Expected exactly one bullet");
    let b = &bullets[0];
    assert_eq!(b.text, "Write tests", "Bullet text mismatch");
    assert_eq!(b.priority, Some(2), "Priority mismatch");
    assert_eq!(b.tags, vec!["dev"], "Tags mismatch");
    assert_eq!(b.notes.len(), 1, "Expected one note");
    assert!(b.notes[0].contains("first note"), "Note content mismatch");
}

#[test]
fn test_mark_done() {
    let mut day: Vec<String> = Vec::new();
    add_bullet(&mut day, "Task A", None, &vec![], &vec![]);
    add_bullet(&mut day, "Task B", None, &vec![], &vec![]);
    let initial = parse_bullets(&day);
    assert_eq!(initial.len(), 2, "Expected two bullets initially");
    assert!(!initial[0].completed && !initial[1].completed, "Bullets should start incomplete");
    mark_done(&mut day, 1).unwrap();
    let bullets = parse_bullets(&day);
    assert_eq!(bullets.len(), 2, "Should still have two bullets after marking one done");
    assert!(bullets[0].completed, "First bullet should be marked done");
    assert!(!bullets[1].completed, "Second bullet should still be incomplete");
}

#[test]
fn test_migrate_one_to_today() {
    let from = date(2025, 11, 4);
    let to = today();
    let mut from_lines: Vec<String> = Vec::new();
    let mut today_lines: Vec<String> = Vec::new();
    add_bullet(&mut from_lines, "Source Bullet A", None, &vec![], &vec![]);
    add_bullet(&mut from_lines, "Source Bullet B", Some(2), &vec!["important".to_string()], &vec![]);
    let initial = parse_bullets(&from_lines);
    assert_eq!(initial.len(), 2, "Should have two bullets initially");
    let b_index = initial.iter().find(|b| b.text == "Source Bullet B").map(|b| b.visible_index).expect("Should find bullet B");
    migrate_one(from, to, &mut from_lines, &mut today_lines, b_index).unwrap();
    let source_after = parse_bullets(&from_lines);
    assert_eq!(source_after.len(), 1, "Source should have one bullet remaining");
    assert_eq!(source_after[0].text, "Source Bullet A", "Wrong bullet removed from source");
    let target = parse_bullets(&today_lines);
    assert_eq!(target.len(), 1, "Target should have one bullet");
    let migrated = &target[0];
    assert_eq!(migrated.text, "Source Bullet B", "Wrong bullet migrated");
    assert_eq!(migrated.priority, Some(2), "Priority not preserved");
    assert_eq!(migrated.tags, vec!["important"], "Tags not preserved");
}

#[test]
fn test_migrate_open_to_today() {
    let from = date(2025, 11, 3);
    let to = today();
    let mut from_lines: Vec<String> = Vec::new();
    let mut today_lines: Vec<String> = Vec::new();
    add_bullet(&mut from_lines, "First Task (Done)", None, &vec![], &vec![]);
    add_bullet(&mut from_lines, "Second Task (Open)", Some(1), &vec!["tag1".to_string()], &vec![]);
    add_bullet(&mut from_lines, "Third Task (Open)", Some(3), &vec!["tag2".to_string()], &vec![]);
    let initial = parse_bullets(&from_lines);
    let first_id = initial.iter().find(|b| b.text == "First Task (Done)").map(|b| b.visible_index).expect("Should find first task");
    mark_done(&mut from_lines, first_id).unwrap();
    migrate_open(from, to, &mut from_lines, &mut today_lines).unwrap();
    let source_after = parse_bullets(&from_lines);
    assert_eq!(source_after.len(), 1, "Source should have one bullet");
    assert!(source_after[0].completed, "Source bullet should be done");
    assert_eq!(source_after[0].text, "First Task (Done)", "Wrong task in source");
    let target = parse_bullets(&today_lines);
    assert_eq!(target.len(), 2, "Target should have two bullets");
    let second = target.iter().find(|b| b.text == "Second Task (Open)").expect("Second task should be migrated");
    assert_eq!(second.priority, Some(1), "Priority not preserved");
    assert_eq!(second.tags, vec!["tag1"], "Tags not preserved");
    let third = target.iter().find(|b| b.text == "Third Task (Open)").expect("Third task should be migrated");
    assert_eq!(third.priority, Some(3), "Priority not preserved");
    assert_eq!(third.tags, vec!["tag2"], "Tags not preserved");
}

#[test]
fn test_delete_bullet() {
    let mut day: Vec<String> = Vec::new();
    add_bullet(&mut day, "Task A", None, &vec![], &vec![]);
    add_bullet(&mut day, "Task B", Some(2), &vec!["important".to_string()], &vec!["Note 1".to_string(), "Note 2".to_string()]);
    add_bullet(&mut day, "Task C", None, &vec![], &vec![]);
    let initial = parse_bullets(&day);
    assert_eq!(initial.len(), 3, "Expected three bullets initially");
    let b_id = initial.iter().find(|b| b.text == "Task B").map(|b| b.visible_index).expect("Should find Task B");
    delete_bullet(&mut day, b_id).unwrap();
    let after = parse_bullets(&day);
    assert_eq!(after.len(), 2, "Should have two bullets after deletion");
    assert!(after.iter().any(|b| b.text == "Task A"), "Task A should remain");
    assert!(after.iter().any(|b| b.text == "Task C"), "Task C should remain");
    assert!(!after.iter().any(|b| b.text == "Task B"), "Task B should be deleted");
    assert_eq!(after[0].visible_index, 1, "First bullet should be index 1");
    assert_eq!(after[1].visible_index, 2, "Second bullet should be index 2");
}

#[test]
fn test_delete_meeting() {
    let mut day: Vec<String> = Vec::new();
    add_bullet(&mut day, "Regular Task", None, &vec![], &vec![]);
    add_meeting(&mut day, ClockTime { hour: 14, minute: 30 }, 45, "Team Sync", &vec!["work".to_string()], &vec!["Prep agenda".to_string()]);
    let initial = parse_bullets(&day);
    assert_eq!(initial.len(), 2, "Expected two bullets initially");
    let mtg_id = initial.iter().find(|b| b.text == "Team Sync").map(|b| b.visible_index).expect("Should find meeting");
    delete_bullet(&mut day, mtg_id).unwrap();
    let after = parse_bullets(&day);
    assert_eq!(after.len(), 1, "Should have one bullet after deletion");
    assert_eq!(after[0].text, "Regular Task", "Regular task should remain");
    assert!(!after.iter().any(|b| b.text == "Team Sync"), "Meeting should be deleted");
}

#[test]
fn test_migrate_to_specific_date() {
    let from = date(2025, 11, 4);
    let to = date(2025, 11, 10);
    let mut from_lines: Vec<String> = Vec::new();
    let mut to_lines: Vec<String> = Vec::new();
    add_bullet(&mut from_lines, "Task for next week", Some(2), &vec!["work".to_string()], &vec![]);
    let initial = parse_bullets(&from_lines);
    assert_eq!(initial.len(), 1, "Should have one bullet");
    let bullet_id = initial[0].visible_index;
    migrate_one(from, to, &mut from_lines, &mut to_lines, bullet_id).unwrap();
    let source_after = parse_bullets(&from_lines);
    assert_eq!(source_after.len(), 0, "Source should be empty after migration");
    let target = parse_bullets(&to_lines);
    assert_eq!(target.len(), 1, "Target should have one bullet");
    assert_eq!(target[0].text, "Task for next week", "Bullet text should match");
    assert_eq!(target[0].priority, Some(2), "Priority should be preserved");
    assert_eq!(target[0].tags, vec!["work"], "Tags should be preserved");
}

#[test]
fn test_migrate_open_to_specific_date() {
    let from = date(2025, 11, 3);
    let to = date(2025, 11, 15);
    let mut from_lines: Vec<String> = Vec::new();
    let mut to_lines: Vec<String> = Vec::new();
    add_bullet(&mut from_lines, "Done Task", None, &vec![], &vec![]);
    add_bullet(&mut from_lines, "Open Task 1", Some(1), &vec!["tag1".to_string()], &vec![]);
    add_bullet(&mut from_lines, "Open Task 2", Some(2), &vec!["tag2".to_string()], &vec![]);
    let initial = parse_bullets(&from_lines);
    let done_id = initial.iter().find(|b| b.text == "Done Task").map(|b| b.visible_index).expect("Should find done task");
    mark_done(&mut from_lines, done_id).unwrap();
    migrate_open(from, to, &mut from_lines, &mut to_lines).unwrap();
    let source_after = parse_bullets(&from_lines);
    assert_eq!(source_after.len(), 1, "Source should have one bullet");
    assert!(source_after[0].completed, "Remaining bullet should be completed");
    let target = parse_bullets(&to_lines);
    assert_eq!(target.len(), 2, "Target should have two bullets");
    assert!(target.iter().any(|b| b.text == "Open Task 1"), "Open Task 1 should be migrated");
    assert!(target.iter().any(|b| b.text == "Open Task 2"), "Open Task 2 should be migrated");
}

#[test]
fn sequential_adds_are_numbered_in_order() {
    let mut day: Vec<String> = Vec::new();
    for name in ["a", "b", "c", "d"] {
        add_bullet(&mut day, name, None, &vec![], &vec!["n".to_string()]);
    }
    let bs = parse_bullets(&day);
    assert_eq!(bs.len(), 4);
    for (i, b) in bs.iter().enumerate() {
        assert_eq!(b.visible_index, i + 1);
        assert_eq!(b.line_index, 2 * i);
    }
    assert_eq!(bs[2].text, "c");
}

#[test]
fn add_writes_exact_lines() {
    let mut day = lines(&["# header"]);
    add_bullet(&mut day, "  spaced out  ", Some(3), &vec!["x".to_string(), "y".to_string()], &vec!["n1".to_string()]);
    assert_eq!(day, lines(&["# header", "- [ ] (!!!) spaced out #x #y", "  - note: n1"]));
}

#[test]
fn add_ignores_unknown_priority() {
    let mut day: Vec<String> = Vec::new();
    add_bullet(&mut day, "odd", Some(7), &vec![], &vec![]);
    assert_eq!(day, lines(&["- [ ] odd"]));
}

#[test]
fn add_meeting_writes_bracket() {
    let mut day: Vec<String> = Vec::new();
    add_meeting(&mut day, ClockTime { hour: 9, minute: 0 }, 120, "Review", &vec![], &vec![]);
    assert_eq!(day, lines(&["- [ ] [mtg 09:00 120] Review"]));
}

#[test]
fn complete_changes_only_the_marker() {
    let mut day = lines(&["  - [ ] indented #t", "- [x] done"]);
    mark_done(&mut day, 1).unwrap();
    assert_eq!(day, lines(&["  - [x] indented #t", "- [x] done"]));
}

#[test]
fn complete_twice_is_same_as_once() {
    let mut day = lines(&["- [ ] a", "- [ ] b"]);
    mark_done(&mut day, 2).unwrap();
    let once = day.clone();
    mark_done(&mut day, 2).unwrap();
    assert_eq!(day, once);
}

#[test]
fn complete_missing_id_is_not_found() {
    let mut day = lines(&["- [ ] a"]);
    assert_eq!(mark_done(&mut day, 0), Err(JournalError::NotFound(0)));
    assert_eq!(mark_done(&mut day, 2), Err(JournalError::NotFound(2)));
    assert_eq!(day, lines(&["- [ ] a"]));
}

#[test]
fn delete_removes_block_keeps_blanks_and_foreign_lines() {
    let mut day = lines(&["intro", "- [ ] a", "- [ ] b", "  - note: x", "", "    more detail", "- [x] c", "outro"]);
    delete_bullet(&mut day, 2).unwrap();
    assert_eq!(day, lines(&["intro", "- [ ] a", "", "- [x] c", "outro"]));
    let bs = parse_bullets(&day);
    assert_eq!(bs.len(), 2);
    assert_eq!(bs[1].text, "c");
    assert_eq!(bs[1].visible_index, 2);
    assert_eq!(bs[1].line_index, 3);
}

#[test]
fn delete_stops_at_unindented_line() {
    let mut day = lines(&["- [ ] a", "  - note: x", "plain", "  - note: y"]);
    delete_bullet(&mut day, 1).unwrap();
    assert_eq!(day, lines(&["plain", "  - note: y"]));
}

#[test]
fn delete_missing_id_is_not_found() {
    let mut day: Vec<String> = Vec::new();
    assert_eq!(delete_bullet(&mut day, 1), Err(JournalError::NotFound(1)));
}

#[test]
fn migrate_same_date_is_invalid() {
    let d = date(2025, 1, 1);
    let mut a = lines(&["- [ ] a"]);
    let mut b: Vec<String> = Vec::new();
    assert_eq!(migrate_one(d, d, &mut a, &mut b, 1), Err(JournalError::InvalidOperation));
    assert_eq!(migrate_open(d, d, &mut a, &mut b), Err(JournalError::InvalidOperation));
    assert_eq!(a, lines(&["- [ ] a"]));
    assert!(b.is_empty());
}

#[test]
fn migrate_completed_entry_is_refused() {
    let mut a = lines(&["- [x] a"]);
    let mut b: Vec<String> = Vec::new();
    assert_eq!(migrate_one(date(2025, 1, 1), date(2025, 1, 2), &mut a, &mut b, 1), Err(JournalError::AlreadyCompleted(1)));
    assert_eq!(migrate_one(date(2025, 1, 1), date(2025, 1, 2), &mut a, &mut b, 5), Err(JournalError::NotFound(5)));
    assert!(b.is_empty());
}

#[test]
fn migrate_one_leaves_notes_and_rebuilds_meeting() {
    let mut a = lines(&["- [ ] [mtg 10:15 30] (!) Sync #w", "  - note: agenda"]);
    let mut b: Vec<String> = Vec::new();
    migrate_one(date(2025, 1, 1), date(2025, 1, 2), &mut a, &mut b, 1).unwrap();
    assert_eq!(a, lines(&["  - note: agenda"]));
    assert_eq!(b, lines(&["- [ ] [mtg 10:15 30] (!) Sync #w"]));
    let moved = parse_bullets(&b);
    assert_eq!(moved[0].meeting_time, Some(ClockTime { hour: 10, minute: 15 }));
    assert_eq!(moved[0].meeting_duration_min, Some(30));
    assert_eq!(moved[0].priority, Some(1));
    assert_eq!(moved[0].text, "Sync");
    assert_eq!(moved[0].tags, vec!["w".to_string()]);
    assert!(moved[0].notes.is_empty());
}

#[test]
fn migrate_open_keeps_prioritized_meeting() {
    let mut a = lines(&["- [ ] [mtg 09:00] (!!!) Review #x", "- [x] done"]);
    let mut b: Vec<String> = Vec::new();
    assert_eq!(migrate_open(date(2025, 1, 1), date(2025, 1, 2), &mut a, &mut b), Ok(1));
    assert_eq!(b, lines(&["- [ ] [mtg 09:00] (!!!) Review #x"]));
    let moved = parse_bullets(&b);
    assert_eq!(moved[0].meeting_time, Some(ClockTime { hour: 9, minute: 0 }));
    assert_eq!(moved[0].priority, Some(3));
    assert_eq!(a, lines(&["- [x] done"]));
}

#[test]
fn migrate_open_scenario() {
    let mut src: Vec<String> = Vec::new();
    add_bullet(&mut src, "A", None, &vec![], &vec!["keep".to_string()]);
    add_bullet(&mut src, "B", Some(3), &vec!["work".to_string()], &vec![]);
    add_bullet(&mut src, "C", None, &vec![], &vec![]);
    mark_done(&mut src, 2).unwrap();
    let mut dst: Vec<String> = Vec::new();
    let moved = migrate_open(date(2025, 3, 1), date(2025, 3, 2), &mut src, &mut dst).unwrap();
    assert_eq!(moved, 2);
    let left = parse_bullets(&src);
    assert_eq!(left.len(), 1);
    assert_eq!(left[0].text, "B");
    assert!(left[0].completed);
    assert_eq!(left[0].priority, Some(3));
    assert_eq!(left[0].tags, vec!["work".to_string()]);
    assert_eq!(src, lines(&["  - note: keep", "- [x] (!!!) B #work"]));
    let moved_in = parse_bullets(&dst);
    assert_eq!(moved_in.len(), 2);
    assert_eq!(moved_in[0].text, "C");
    assert_eq!(moved_in[1].text, "A");
    assert!(moved_in.iter().all(|b| b.notes.is_empty() && !b.completed));
}
