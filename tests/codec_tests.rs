use bullet_journal::clock::{parse_u32, u32_text, ClockTime};
use bullet_journal::codec::{encode, parse_bullets, parse_text_meeting_meta, parse_text_meta_only, Bullet};

fn lines(v: &[&str]) -> Vec<String> {
    v.iter().map(|s| s.to_string()).collect()
}

#[test]
fn test_parse_text_meta_only() {
    let s = "(!!!) Test bullet #work #urgent";
    let (text, pr, tags) = parse_text_meta_only(s);
    assert_eq!(text, "Test bullet", "Text not correctly extracted");
    assert_eq!(pr, Some(3), "High priority not detected");
    assert_eq!(tags, vec!["work".to_string(), "urgent".to_string()], "Tags not correctly parsed");

    let s = "(!!) Medium priority #dev";
    let (text, pr, tags) = parse_text_meta_only(s);
    assert_eq!(text, "Medium priority", "Text with medium priority not extracted");
    assert_eq!(pr, Some(2), "Medium priority not detected");
    assert_eq!(tags, vec!["dev".to_string()], "Single tag not parsed");

    let s = "Simple bullet";
    let (text, pr, tags) = parse_text_meta_only(s);
    assert_eq!(text, "Simple bullet", "Plain text not preserved");
    assert_eq!(pr, None, "Should have no priority");
    assert!(tags.is_empty(), "Should have no tags");
}

#[test]
fn test_parse_text_meeting_meta() {
    let s = "[mtg 15:30 45] Team sync #work";
    let (text, pr, tags, mt, dur) = parse_text_meeting_meta(s);
    assert_eq!(text, "Team sync", "Meeting text not extracted");
    assert_eq!(pr, None, "Should have no priority");
    assert_eq!(tags, vec!["work".to_string()], "Meeting tag not parsed");
    assert_eq!(mt.unwrap().hhmm(), "15:30", "Meeting time not parsed");
    assert_eq!(dur, Some(45), "Meeting duration not parsed");

    let s = "[mtg 09:00] Daily standup";
    let (text, _pr, _tags, mt, dur) = parse_text_meeting_meta(s);
    assert_eq!(text, "Daily standup", "Simple meeting text not extracted");
    assert_eq!(mt.unwrap().hhmm(), "09:00", "Simple meeting time not parsed");
    assert_eq!(dur, None, "Should have no duration");

    let s = "Regular bullet";
    let (text, _pr, _tags, mt, dur) = parse_text_meeting_meta(s);
    assert_eq!(text, "Regular bullet", "Non-meeting text should be preserved");
    assert!(mt.is_none(), "Non-meeting should have no time");
    assert!(dur.is_none(), "Non-meeting should have no duration");
}

#[test]
fn priority_low_and_tag_spacing() {
    let (text, pr, tags) = parse_text_meta_only("(!) a   b\t#x  c");
    assert_eq!(text, "a b c");
    assert_eq!(pr, Some(1));
    assert_eq!(tags, vec!["x".to_string()]);
}

#[test]
fn priority_marker_needs_its_space() {
    let (text, pr, _) = parse_text_meta_only("(!!!)urgent");
    assert_eq!(text, "(!!!)urgent");
    assert_eq!(pr, None);
}

#[test]
fn bare_hash_stays_in_text() {
    let (text, _, tags) = parse_text_meta_only("a # b #t");
    assert_eq!(text, "a # b");
    assert_eq!(tags, vec!["t".to_string()]);
}

#[test]
fn duplicate_tags_are_kept() {
    let (_, _, tags) = parse_text_meta_only("x #a #a");
    assert_eq!(tags, vec!["a".to_string(), "a".to_string()]);
}

#[test]
fn malformed_meeting_time_sets_nothing() {
    let (text, _, _, mt, dur) = parse_text_meeting_meta("[mtg 25:99 30] Broken");
    assert_eq!(text, "Broken");
    assert!(mt.is_none());
    assert!(dur.is_none());
}

#[test]
fn meeting_duration_with_plus_sign() {
    let (_, _, _, mt, dur) = parse_text_meeting_meta("[mtg 08:05 +20] Sync");
    assert_eq!(mt, Some(ClockTime { hour: 8, minute: 5 }));
    assert_eq!(dur, Some(20));
}

#[test]
fn meeting_bad_duration_keeps_time() {
    let (_, _, _, mt, dur) = parse_text_meeting_meta("[mtg 08:05 soon] Sync");
    assert_eq!(mt, Some(ClockTime { hour: 8, minute: 5 }));
    assert_eq!(dur, None);
}

#[test]
fn unclosed_meeting_bracket_is_text() {
    let (text, _, _, mt, _) = parse_text_meeting_meta("[mtg 10:00 no close");
    assert_eq!(text, "[mtg 10:00 no close");
    assert!(mt.is_none());
}

#[test]
fn decode_empty_file() {
    assert!(parse_bullets(&Vec::new()).is_empty());
}

#[test]
fn decode_numbers_entries_and_skips_foreign_lines() {
    let ls = lines(&["# Heading", "- [ ] one", "  - note: n1", "  - note: n2", "", "  - note: stray", "text", "   - [x] two #t"]);
    let bs = parse_bullets(&ls);
    assert_eq!(bs.len(), 2);
    assert_eq!(bs[0].visible_index, 1);
    assert_eq!(bs[0].line_index, 1);
    assert_eq!(bs[0].notes, vec!["n1".to_string(), "n2".to_string()]);
    assert!(!bs[0].completed);
    assert_eq!(bs[1].visible_index, 2);
    assert_eq!(bs[1].line_index, 7);
    assert!(bs[1].completed);
    assert_eq!(bs[1].text, "two");
    assert_eq!(bs[1].tags, vec!["t".to_string()]);
    assert!(bs[1].notes.is_empty());
}

#[test]
fn tags_mid_sentence_move_to_line_end() {
    let ls = lines(&["- [ ] Ship #work the release"]);
    let bs = parse_bullets(&ls);
    assert_eq!(bs[0].text, "Ship the release");
    assert_eq!(bs[0].tags, vec!["work".to_string()]);
    assert_eq!(encode(&bs[0]), vec!["- [ ] Ship the release #work".to_string()]);
    let again = parse_bullets(&encode(&bs[0]));
    assert_eq!(again[0].text, bs[0].text);
    assert_eq!(again[0].tags, bs[0].tags);
}

#[test]
fn encode_canonical_order() {
    let b = Bullet {
        line_index: 0,
        visible_index: 1,
        completed: true,
        text: "Plan".to_string(),
        priority: Some(2),
        tags: vec!["a".to_string(), "b".to_string()],
        notes: vec!["first".to_string()],
        meeting_time: Some(ClockTime { hour: 9, minute: 5 }),
        meeting_duration_min: Some(30),
    };
    assert_eq!(
        encode(&b),
        vec!["- [x] [mtg 09:05 30] (!!) Plan #a #b".to_string(), "  - note: first".to_string()]
    );
}

#[test]
fn clock_time_text() {
    assert_eq!(ClockTime { hour: 7, minute: 3 }.hhmm(), "07:03");
}

#[test]
fn meeting_time_single_digits_read() {
    let (_, _, _, mt, _) = parse_text_meeting_meta("[mtg 9:5] Early");
    assert_eq!(mt, Some(ClockTime { hour: 9, minute: 5 }));
}

#[test]
fn meeting_time_three_digit_hour_rejected() {
    let (_, _, _, mt, dur) = parse_text_meeting_meta("[mtg 123:00 5] Odd");
    assert!(mt.is_none());
    assert!(dur.is_none());
}

#[test]
fn meeting_duration_overflow_is_dropped() {
    let (_, _, _, mt, dur) = parse_text_meeting_meta("[mtg 10:00 4294967296] Long");
    assert_eq!(mt, Some(ClockTime { hour: 10, minute: 0 }));
    assert_eq!(dur, None);
    let (_, _, _, _, dur) = parse_text_meeting_meta("[mtg 10:00 4294967295] Long");
    assert_eq!(dur, Some(4294967295));
}

#[test]
fn decimal_numbers_round_trip() {
    assert_eq!(u32_text(0), "0");
    assert_eq!(u32_text(4294967295), "4294967295");
    assert_eq!(parse_u32("+7"), Some(7));
    assert_eq!(parse_u32("-7"), None);
    assert_eq!(parse_u32(""), None);
    assert_eq!(parse_u32("+"), None);
    assert_eq!(parse_u32(" 7"), None);
    assert_eq!(parse_u32("007"), Some(7));
}
