//! Priority names, list filters, calendar markers and the alert state's file.
use vstd::prelude::*;
use crate::codec::{Bullet, BulletView, views, meeting_ok};
use crate::journal::JournalError;
use crate::text::seqs;

verus! {

/// The text with its letters in lower case.
pub uninterp spec fn lower_of(s: Seq<char>) -> Seq<char>;

/// A file name joined onto a directory path.
pub uninterp spec fn joined_path(dir: Seq<char>, name: Seq<char>) -> Seq<char>;

/// Relies on `str::to_lowercase`: the result depends on the characters alone.
#[verifier::external_body]
fn lowercase(s: &str) -> (r: String)
    ensures
        r@ == lower_of(s@),
{
    s.to_lowercase()
}

/// Relies on `Path::join`: the directory path with the name appended as its last
/// component, taken back as text.
#[verifier::external_body]
fn join_path(dir: &str, name: &str) -> (r: String)
    ensures
        r@ == joined_path(dir@, name@),
{
    std::path::Path::new(dir).join(name).to_string_lossy().into_owned()
}

/// The priority that a lower-case name stands for.
pub open spec fn priority_word(w: Seq<char>) -> Option<u8> {
    if w == "3"@ || w == "high"@ || w == "h"@ {
        Some(3)
    } else if w == "2"@ || w == "med"@ || w == "m"@ || w == "medium"@ {
        Some(2)
    } else if w == "1"@ || w == "low"@ || w == "l"@ {
        Some(1)
    } else {
        None
    }
}

/// Whether two texts are equal.
pub fn same_text(a: &str, b: &str) -> (r: bool)
    ensures
        r == (a@ == b@),
{
    let n = a.unicode_len();
    if n != b.unicode_len() {
        return false;
    }
    let mut i: usize = 0;
    while i < n
        invariant
            n == a@.len() == b@.len(),
            i <= n,
            forall|j: int| 0 <= j < i ==> a@[j] == b@[j],
        decreases n - i,
    {
        if a.get_char(i) != b.get_char(i) {
            return false;
        }
        i = i + 1;
    }
    assert(a@ =~= b@);
    true
}

/// The priority that a lower-case name stands for.
pub fn priority_from_word(w: &str) -> (r: Option<u8>)
    ensures
        r == priority_word(w@),
{
    if same_text(w, "3") || same_text(w, "high") || same_text(w, "h") {
        Some(3)
    } else if same_text(w, "2") || same_text(w, "med") || same_text(w, "m") || same_text(
        w,
        "medium",
    ) {
        Some(2)
    } else if same_text(w, "1") || same_text(w, "low") || same_text(w, "l") {
        Some(1)
    } else {
        None
    }
}

/// Reads an optional priority name, in any case: `high`/`h`/`3`, `med`/`medium`/`m`/`2`
/// or `low`/`l`/`1`.
pub fn parse_priority_opt(v: Option<&str>) -> (r: Result<Option<u8>, JournalError>)
    ensures
        v is None ==> r == Ok::<Option<u8>, JournalError>(None),
        v matches Some(s) ==> match priority_word(lower_of(s@)) {
            Some(p) => r == Ok::<Option<u8>, JournalError>(Some(p)),
            None => r matches Err(JournalError::InvalidPriority(t)) && t@ == lower_of(s@),
        },
{
    match v {
        None => Ok(None),
        Some(s) => {
            let lower = lowercase(s);
            match priority_from_word(lower.as_str()) {
                Some(p) => Ok(Some(p)),
                None => Err(JournalError::InvalidPriority(lower)),
            }
        },
    }
}

/// The entry passes the filters: its priority is the one asked for, if any, and it
/// carries every tag asked for.
pub open spec fn matches_filter(b: BulletView, tags: Seq<Seq<char>>, pr: Option<u8>) -> bool {
    &&& pr matches Some(p) ==> b.priority == Some(p)
    &&& forall|i: int| 0 <= i < tags.len() ==> b.tags.contains(#[trigger] tags[i])
}

/// Whether the text is among the texts.
fn has_text(v: &Vec<String>, t: &String) -> (r: bool)
    ensures
        r == seqs(v@).contains(t@),
{
    let mut i: usize = 0;
    while i < v.len()
        invariant
            i <= v@.len(),
            forall|j: int| 0 <= j < i ==> seqs(v@)[j] != t@,
        decreases v.len() - i,
    {
        if v[i] == *t {
            assert(seqs(v@)[i as int] == t@);
            return true;
        }
        i = i + 1;
    }
    false
}

/// Whether an entry passes the priority and tag filters of a listing.
pub fn bullet_matches(b: &Bullet, filter_tags: &Vec<String>, filter_priority: Option<u8>) -> (r:
    bool)
    ensures
        r == matches_filter(b@, seqs(filter_tags@), filter_priority),
{
    match filter_priority {
        Some(p) => {
            if b.priority != Some(p) {
                return false;
            }
        },
        None => {},
    }
    let mut i: usize = 0;
    while i < filter_tags.len()
        invariant
            i <= filter_tags@.len(),
            forall|j: int| 0 <= j < i ==> b@.tags.contains(#[trigger] seqs(filter_tags@)[j]),
        decreases filter_tags.len() - i,
    {
        if !has_text(&b.tags, &filter_tags[i]) {
            assert(seqs(filter_tags@)[i as int] == filter_tags@[i as int]@);
            return false;
        }
        i = i + 1;
    }
    true
}

/// The marker of a day in the month calendar.
#[derive(Clone, Copy, Debug, PartialEq, Eq, Structural)]
pub enum DayMarker {
    /// Some entry is a meeting.
    Meeting,
    /// No meeting, and some entry is open.
    Open,
    /// There are entries, all done.
    AllDone,
    /// No entries.
    Empty,
}

pub open spec fn day_marker_of(bs: Seq<BulletView>) -> DayMarker {
    if exists|i: int| 0 <= i < bs.len() && (#[trigger] bs[i]).meeting_time is Some {
        DayMarker::Meeting
    } else if exists|i: int| 0 <= i < bs.len() && !(#[trigger] bs[i]).completed {
        DayMarker::Open
    } else if bs.len() > 0 {
        DayMarker::AllDone
    } else {
        DayMarker::Empty
    }
}

/// The calendar marker for a day's entries.
pub fn day_marker(bullets: &Vec<Bullet>) -> (r: DayMarker)
    ensures
        r == day_marker_of(views(bullets@)),
{
    let ghost bs = views(bullets@);
    let mut meeting = false;
    let mut open = false;
    let mut i: usize = 0;
    while i < bullets.len()
        invariant
            bs == views(bullets@),
            i <= bullets@.len(),
            meeting <==> exists|j: int| 0 <= j < i && (#[trigger] bs[j]).meeting_time is Some,
            open <==> exists|j: int| 0 <= j < i && !(#[trigger] bs[j]).completed,
        decreases bullets.len() - i,
    {
        assert(bs[i as int] == bullets@[i as int]@);
        if bullets[i].meeting_time.is_some() {
            meeting = true;
        }
        if !bullets[i].completed {
            open = true;
        }
        i = i + 1;
    }
    if meeting {
        DayMarker::Meeting
    } else if open {
        DayMarker::Open
    } else if bullets.len() > 0 {
        DayMarker::AllDone
    } else {
        DayMarker::Empty
    }
}

/// Where the keys of the alerts already sent are kept, inside the data directory.
pub fn notified_state_path(data_dir: &str) -> (r: String)
    ensures
        r@ == joined_path(data_dir@, "notified.meetings"@),
{
    join_path(data_dir, "notified.meetings")
}

/// The minute of the day at which a meeting starts.
pub open spec fn start_minute(b: BulletView) -> int {
    match b.meeting_time {
        Some(t) => t.hour * 60 + t.minute,
        None => 0,
    }
}

/// Entry `i` comes before entry `j` in a meeting listing: it starts earlier, or at the
/// same minute and earlier in the file.
pub open spec fn listed_before(bs: Seq<BulletView>, i: int, j: int) -> bool {
    start_minute(bs[i]) < start_minute(bs[j]) || (start_minute(bs[i]) == start_minute(bs[j])
        && i < j)
}

/// The positions of the day's meetings, by start time; meetings that start together
/// keep their order in the file.
pub fn meetings_by_time(bullets: &Vec<Bullet>) -> (r: Vec<usize>)
    requires
        forall|i: int| 0 <= i < bullets@.len() ==> #[trigger] meeting_ok(bullets@[i].meeting_time, bullets@[i].meeting_duration_min),
    ensures
        forall|a: int|
            0 <= a < r@.len() ==> #[trigger] r@[a] < bullets@.len() && bullets@[r@[a] as int].meeting_time is Some,
        forall|i: int|
            0 <= i < bullets@.len() && (#[trigger] bullets@[i]).meeting_time is Some ==> exists|a: int|
                0 <= a < r@.len() && r@[a] == i,
        forall|a: int, b: int|
            0 <= a < b < r@.len() ==> listed_before(views(bullets@), #[trigger] r@[a] as int, #[trigger] r@[b] as int),
{
    let ghost bs = views(bullets@);
    let mut out: Vec<usize> = Vec::new();
    let mut m: u32 = 0;
    while m < 1440
        invariant
            bs == views(bullets@),
            m <= 1440,
            forall|i: int| 0 <= i < bullets@.len() ==> #[trigger] meeting_ok(bullets@[i].meeting_time, bullets@[i].meeting_duration_min),
            forall|a: int|
                0 <= a < out@.len() ==> #[trigger] out@[a] < bullets@.len() && bs[out@[a] as int].meeting_time is Some
                    && start_minute(bs[out@[a] as int]) < m,
            forall|i: int|
                0 <= i < bullets@.len() && (#[trigger] bs[i]).meeting_time is Some && start_minute(bs[i]) < m
                    ==> exists|a: int| 0 <= a < out@.len() && out@[a] == i,
            forall|a: int, b: int|
                0 <= a < b < out@.len() ==> listed_before(bs, #[trigger] out@[a] as int, #[trigger] out@[b] as int),
        decreases 1440 - m,
    {
        let mut i: usize = 0;
        while i < bullets.len()
            invariant
                bs == views(bullets@),
                m < 1440,
                i <= bullets@.len(),
                forall|i: int| 0 <= i < bullets@.len() ==> #[trigger] meeting_ok(bullets@[i].meeting_time, bullets@[i].meeting_duration_min),
                forall|a: int|
                    0 <= a < out@.len() ==> #[trigger] out@[a] < bullets@.len() && bs[out@[a] as int].meeting_time is Some
                        && (start_minute(bs[out@[a] as int]) < m || (start_minute(bs[out@[a] as int]) == m && out@[a] < i)),
                forall|x: int|
                    0 <= x < bullets@.len() && (#[trigger] bs[x]).meeting_time is Some && (start_minute(bs[x]) < m
                        || (start_minute(bs[x]) == m && x < i)) ==> exists|a: int| 0 <= a < out@.len() && out@[a] == x,
                forall|a: int, b: int|
                    0 <= a < b < out@.len() ==> listed_before(bs, #[trigger] out@[a] as int, #[trigger] out@[b] as int),
            decreases bullets.len() - i,
        {
            assert(bs[i as int] == bullets@[i as int]@);
            match bullets[i].meeting_time {
                Some(t) => {
                    assert(meeting_ok(bullets@[i as int].meeting_time, bullets@[i as int].meeting_duration_min));
                    if t.hour * 60 + t.minute == m {
                        let ghost before = out@;
                        out.push(i);
                        assert forall|a: int, b: int|
                            0 <= a < b < out@.len() implies listed_before(bs, #[trigger] out@[a] as int, #[trigger] out@[b] as int) by {
                            if b == out@.len() - 1 {
                                assert(out@[a] == before[a]);
                            } else {
                                assert(out@[a] == before[a] && out@[b] == before[b]);
                            }
                        }
                        assert forall|x: int|
                            0 <= x < bullets@.len() && (#[trigger] bs[x]).meeting_time is Some && (start_minute(bs[x]) < m
                                || (start_minute(bs[x]) == m && x < i + 1)) implies exists|a: int| 0 <= a < out@.len() && out@[a] == x by {
                            if x == i {
                                assert(out@[out@.len() - 1] == x);
                            } else {
                                let a = choose|a: int| 0 <= a < before.len() && before[a] == x;
                                assert(out@[a] == x);
                            }
                        }
                    }
                },
                None => {},
            }
            i = i + 1;
        }
        m = m + 1;
    }
    proof {
        assert forall|i: int|
            0 <= i < bullets@.len() && (#[trigger] bullets@[i]).meeting_time is Some implies exists|a: int|
                0 <= a < out@.len() && out@[a] == i by {
            assert(bs[i] == bullets@[i]@);
            assert(meeting_ok(bullets@[i].meeting_time, bullets@[i].meeting_duration_min));
        }
        assert forall|a: int| 0 <= a < out@.len() implies #[trigger] out@[a] < bullets@.len()
            && bullets@[out@[a] as int].meeting_time is Some by {
            assert(bs[out@[a] as int] == bullets@[out@[a] as int]@);
        }
    }
    out
}

} // verus!
