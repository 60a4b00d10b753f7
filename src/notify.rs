//! Alerts for meetings about to start, each sent once per date and start time.
use vstd::prelude::*;
use crate::clock::{ClockTime, hhmm_text, minutes_until, chrono_minutes_until, format_hhmm};
use crate::codec::{Bullet, BulletView, views, decode, meeting_ok, parse_bullets};
use crate::text::seqs;

verus! {

/// One alert to deliver.
#[derive(Clone, Debug)]
pub struct Notice {
    /// `date|HH:MM`, the key under which the alert is remembered.
    pub key: String,
    /// The meeting's text.
    pub text: String,
    pub time: ClockTime,
    /// Whole minutes until the meeting starts.
    pub minutes: i64,
}

pub struct NoticeView {
    pub key: Seq<char>,
    pub text: Seq<char>,
    pub time: ClockTime,
    pub minutes: int,
}

impl View for Notice {
    type V = NoticeView;

    open spec fn view(&self) -> NoticeView {
        NoticeView {
            key: self.key@,
            text: self.text@,
            time: self.time,
            minutes: self.minutes as int,
        }
    }
}

pub open spec fn notice_views(v: Seq<Notice>) -> Seq<NoticeView> {
    v.map_values(|n: Notice| n@)
}

pub open spec fn notice_keys(v: Seq<NoticeView>) -> Seq<Seq<char>> {
    v.map_values(|n: NoticeView| n.key)
}

/// The key of a meeting alert: the date, a bar, and the start time.
pub open spec fn notice_key(day: Seq<char>, t: ClockTime) -> Seq<char> {
    day + seq!['|'] + hhmm_text(t)
}

/// The alerts due for the entries: meetings that start within the window from now,
/// not in the past, whose key was not sent before; in entry order.
pub open spec fn due_notices(
    bs: Seq<BulletView>,
    day: Seq<char>,
    now_secs: u32,
    now_nanos: u32,
    window: int,
    sent: Seq<Seq<char>>,
) -> Seq<NoticeView>
    decreases bs.len(),
{
    if bs.len() == 0 {
        seq![]
    } else {
        let prev = due_notices(bs.drop_last(), day, now_secs, now_nanos, window, sent);
        let b = bs.last();
        match b.meeting_time {
            Some(t) => {
                let key = notice_key(day, t);
                let m = minutes_until(t, now_secs, now_nanos);
                if !sent.contains(key) && 0 <= m <= window {
                    prev.push(NoticeView { key, text: b.text, time: t, minutes: m })
                } else {
                    prev
                }
            },
            None => prev,
        }
    }
}

/// The keys remembered after a run: those loaded and those just sent.
pub open spec fn state_after(sent: Seq<Seq<char>>, fired: Seq<NoticeView>) -> Seq<Seq<char>> {
    sent + notice_keys(fired)
}

/// Whether the key is among the keys.
pub fn contains_key(keys: &Vec<String>, key: &String) -> (r: bool)
    ensures
        r == seqs(keys@).contains(key@),
{
    let mut i: usize = 0;
    while i < keys.len()
        invariant
            i <= keys@.len(),
            forall|j: int| 0 <= j < i ==> seqs(keys@)[j] != key@,
        decreases keys.len() - i,
    {
        if keys[i] == *key {
            assert(seqs(keys@)[i as int] == key@);
            return true;
        }
        i = i + 1;
    }
    false
}

/// The alert key for a meeting on a date.
pub fn meeting_key(day: &str, t: ClockTime) -> (r: String)
    requires
        t.valid(),
    ensures
        r@ == notice_key(day@, t),
{
    let mut key = String::from_str(day);
    proof {
        reveal_strlit("|");
    }
    key.append("|");
    key.append(format_hhmm(t.hour, t.minute).as_str());
    assert(ClockTime { hour: t.hour, minute: t.minute } == t);
    key
}

/// The alerts due now for the entries of `day`, given the keys sent before.
pub fn upcoming_notices(
    day: &str,
    bullets: &Vec<Bullet>,
    now_secs: u32,
    now_nanos: u32,
    window_minutes: i64,
    sent: &Vec<String>,
) -> (r: Vec<Notice>)
    requires
        now_secs < 86400,
        now_nanos < 1_000_000_000,
        forall|i: int| 0 <= i < bullets@.len() ==> meeting_ok(#[trigger] bullets@[i].meeting_time, bullets@[i].meeting_duration_min),
    ensures
        notice_views(r@) == due_notices(
            views(bullets@),
            day@,
            now_secs,
            now_nanos,
            window_minutes as int,
            seqs(sent@),
        ),
{
    let ghost bs = views(bullets@);
    let mut out: Vec<Notice> = Vec::new();
    let mut i: usize = 0;
    assert(bs.take(0) =~= Seq::<BulletView>::empty());
    while i < bullets.len()
        invariant
            bs == views(bullets@),
            i <= bullets@.len(),
            now_secs < 86400,
            now_nanos < 1_000_000_000,
            forall|i: int| 0 <= i < bullets@.len() ==> meeting_ok(#[trigger] bullets@[i].meeting_time, bullets@[i].meeting_duration_min),
            notice_views(out@) == due_notices(
                bs.take(i as int),
                day@,
                now_secs,
                now_nanos,
                window_minutes as int,
                seqs(sent@),
            ),
        decreases bullets.len() - i,
    {
        let ghost t = bs.take(i + 1);
        assert(t.drop_last() =~= bs.take(i as int));
        assert(t.last() == bullets@[i as int]@);
        let b = &bullets[i];
        match b.meeting_time {
            Some(mt) => {
                let key = meeting_key(day, mt);
                if !contains_key(sent, &key) {
                    let m = chrono_minutes_until(mt, now_secs, now_nanos);
                    if 0 <= m && m <= window_minutes {
                        let ghost before = out@;
                        let n = Notice { key, text: b.text.clone(), time: mt, minutes: m };
                        out.push(n);
                        assert(notice_views(out@) =~= notice_views(before).push(n@));
                    }
                }
            },
            None => {},
        }
        i = i + 1;
    }
    assert(bs.take(bullets@.len() as int) =~= bs);
    out
}

/// Decides the alerts for today's lines: the alerts to deliver, and the keys to
/// remember afterwards where any alert is due (those loaded, then the new ones).
pub fn notify_upcoming_meetings(
    day: &str,
    lines: &Vec<String>,
    now_secs: u32,
    now_nanos: u32,
    window_minutes: i64,
    sent: &Vec<String>,
) -> (r: (Vec<Notice>, Option<Vec<String>>))
    requires
        now_secs < 86400,
        now_nanos < 1_000_000_000,
    ensures
        ({
            let due = due_notices(
                decode(seqs(lines@)),
                day@,
                now_secs,
                now_nanos,
                window_minutes as int,
                seqs(sent@),
            );
            &&& notice_views(r.0@) == due
            &&& due.len() == 0 ==> r.1 is None
            &&& due.len() > 0 ==> (r.1 matches Some(state) && seqs(state@) == state_after(
                seqs(sent@),
                due,
            ))
        }),
{
    let bullets = parse_bullets(lines);
    let notices = upcoming_notices(day, &bullets, now_secs, now_nanos, window_minutes, sent);
    if notices.len() == 0 {
        return (notices, None);
    }
    let mut state: Vec<String> = Vec::new();
    let mut i: usize = 0;
    while i < sent.len()
        invariant
            i <= sent@.len(),
            seqs(state@) == seqs(sent@).take(i as int),
        decreases sent.len() - i,
    {
        let ghost before = state@;
        state.push(sent[i].clone());
        assert(seqs(state@) =~= seqs(before).push(seqs(sent@)[i as int]));
        assert(seqs(state@) =~= seqs(sent@).take(i + 1));
        i = i + 1;
    }
    assert(seqs(sent@).take(sent@.len() as int) =~= seqs(sent@));
    let mut j: usize = 0;
    let ghost nv = notice_views(notices@);
    assert(notice_keys(nv).take(0) =~= Seq::<Seq<char>>::empty());
    while j < notices.len()
        invariant
            nv == notice_views(notices@),
            j <= notices@.len(),
            seqs(state@) == seqs(sent@) + notice_keys(nv).take(j as int),
        decreases notices.len() - j,
    {
        let ghost before = state@;
        state.push(notices[j].key.clone());
        assert(nv[j as int].key == notices@[j as int].key@);
        assert(seqs(state@) =~= seqs(before).push(nv[j as int].key));
        assert(notice_keys(nv).take(j + 1) =~= notice_keys(nv).take(j as int).push(nv[j as int].key));
        assert(seqs(state@) =~= seqs(sent@) + notice_keys(nv).take(j + 1));
        j = j + 1;
    }
    assert(notice_keys(nv).take(notices@.len() as int) =~= notice_keys(nv));
    (notices, Some(state))
}

/// Every alert of a run has its key in the state remembered after it, so a run
/// that starts from that state sends none of them again.
pub proof fn lemma_notify_once(
    bs: Seq<BulletView>,
    day: Seq<char>,
    first_secs: u32,
    first_nanos: u32,
    second_secs: u32,
    second_nanos: u32,
    window: int,
    sent: Seq<Seq<char>>,
)
    ensures
        ({
            let first = due_notices(bs, day, first_secs, first_nanos, window, sent);
            let second = due_notices(
                bs,
                day,
                second_secs,
                second_nanos,
                window,
                state_after(sent, first),
            );
            forall|i: int, j: int|
                0 <= i < first.len() && 0 <= j < second.len() ==> first[i].key != second[j].key
        }),
{
    let first = due_notices(bs, day, first_secs, first_nanos, window, sent);
    let state = state_after(sent, first);
    lemma_due_keys(bs, day, second_secs, second_nanos, window, state);
    assert forall|i: int, j: int|
        0 <= i < first.len() && 0 <= j < due_notices(
            bs,
            day,
            second_secs,
            second_nanos,
            window,
            state,
        ).len() implies first[i].key != due_notices(
        bs,
        day,
        second_secs,
        second_nanos,
        window,
        state,
    )[j].key by {
        assert(state[sent.len() + i] == first[i].key);
    }
}

/// No alert is due under a key that was sent before.
pub proof fn lemma_due_keys(
    bs: Seq<BulletView>,
    day: Seq<char>,
    now_secs: u32,
    now_nanos: u32,
    window: int,
    sent: Seq<Seq<char>>,
)
    ensures
        forall|j: int|
            0 <= j < due_notices(bs, day, now_secs, now_nanos, window, sent).len()
                ==> !sent.contains(
                #[trigger] due_notices(bs, day, now_secs, now_nanos, window, sent)[j].key,
            ),
    decreases bs.len(),
{
    if bs.len() > 0 {
        lemma_due_keys(bs.drop_last(), day, now_secs, now_nanos, window, sent);
        let prev = due_notices(bs.drop_last(), day, now_secs, now_nanos, window, sent);
        let cur = due_notices(bs, day, now_secs, now_nanos, window, sent);
        assert forall|j: int| 0 <= j < cur.len() implies !sent.contains(#[trigger] cur[j].key) by {
            if j < prev.len() {
                assert(cur[j] == prev[j]);
            }
        }
    }
}

} // verus!
