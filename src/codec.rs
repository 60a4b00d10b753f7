//! The line format of a day file: entries, their markers, tags and notes.
use vstd::prelude::*;
use crate::clock::{
    ClockTime, hhmm_of, parsed_u32, hhmm_text, decimal, parse_hhmm, parse_u32, format_hhmm,
    u32_text,
};
use crate::text::{
    trim_start, words, join_words, seqs, first_index, chars_of, suffix_from, has_prefix_at,
    leading_ws, split_words, join_with_spaces, find_char, lemma_first_index_bounds,
};

verus! {

pub open spec fn open_mark() -> Seq<char> {
    "- [ ] "@
}

pub open spec fn done_mark() -> Seq<char> {
    "- [x] "@
}

pub open spec fn note_mark() -> Seq<char> {
    "  - note: "@
}

pub open spec fn meeting_mark() -> Seq<char> {
    "[mtg "@
}

pub open spec fn high_mark() -> Seq<char> {
    "(!!!) "@
}

pub open spec fn medium_mark() -> Seq<char> {
    "(!!) "@
}

pub open spec fn low_mark() -> Seq<char> {
    "(!) "@
}

/// One decoded entry of a day file.
#[derive(Clone, Debug)]
pub struct Bullet {
    /// Position of the entry's line in the file.
    pub line_index: usize,
    /// 1-based position among the entries of the file.
    pub visible_index: usize,
    pub completed: bool,
    pub text: String,
    pub priority: Option<u8>,
    pub tags: Vec<String>,
    pub notes: Vec<String>,
    pub meeting_time: Option<ClockTime>,
    pub meeting_duration_min: Option<u32>,
}

pub struct BulletView {
    pub line_index: int,
    pub visible_index: int,
    pub completed: bool,
    pub text: Seq<char>,
    pub priority: Option<u8>,
    pub tags: Seq<Seq<char>>,
    pub notes: Seq<Seq<char>>,
    pub meeting_time: Option<ClockTime>,
    pub meeting_duration_min: Option<u32>,
}

impl View for Bullet {
    type V = BulletView;

    open spec fn view(&self) -> BulletView {
        BulletView {
            line_index: self.line_index as int,
            visible_index: self.visible_index as int,
            completed: self.completed,
            text: self.text@,
            priority: self.priority,
            tags: seqs(self.tags@),
            notes: seqs(self.notes@),
            meeting_time: self.meeting_time,
            meeting_duration_min: self.meeting_duration_min,
        }
    }
}

pub open spec fn views(v: Seq<Bullet>) -> Seq<BulletView> {
    v.map_values(|b: Bullet| b@)
}

/// Whether the entry is done, and the text after its marker, where the line starts an entry.
pub open spec fn entry_head(line: Seq<char>) -> Option<(bool, Seq<char>)> {
    let t = trim_start(line);
    if open_mark().is_prefix_of(t) {
        Some((false, t.skip(open_mark().len() as int)))
    } else if done_mark().is_prefix_of(t) {
        Some((true, t.skip(done_mark().len() as int)))
    } else {
        None
    }
}

pub open spec fn is_entry_line(line: Seq<char>) -> bool {
    entry_head(line) is Some
}

/// The priority marker at the start of the text, and the text after it.
pub open spec fn split_priority(s: Seq<char>) -> (Option<u8>, Seq<char>) {
    if high_mark().is_prefix_of(s) {
        (Some(3), s.skip(high_mark().len() as int))
    } else if medium_mark().is_prefix_of(s) {
        (Some(2), s.skip(medium_mark().len() as int))
    } else if low_mark().is_prefix_of(s) {
        (Some(1), s.skip(low_mark().len() as int))
    } else {
        (None, s)
    }
}

pub open spec fn is_tag_word(w: Seq<char>) -> bool {
    w.len() > 1 && w[0] == '#'
}

/// The tags among the words, without their `#`, in order.
pub open spec fn tags_of(ws: Seq<Seq<char>>) -> Seq<Seq<char>>
    decreases ws.len(),
{
    if ws.len() == 0 {
        seq![]
    } else if is_tag_word(ws.last()) {
        tags_of(ws.drop_last()).push(ws.last().drop_first())
    } else {
        tags_of(ws.drop_last())
    }
}

/// The words that are not tags, in order.
pub open spec fn plain_words(ws: Seq<Seq<char>>) -> Seq<Seq<char>>
    decreases ws.len(),
{
    if ws.len() == 0 {
        seq![]
    } else if is_tag_word(ws.last()) {
        plain_words(ws.drop_last())
    } else {
        plain_words(ws.drop_last()).push(ws.last())
    }
}

/// Text, priority and tags of the part of an entry line after any meeting bracket.
pub open spec fn meta_of(s: Seq<char>) -> (Seq<char>, Option<u8>, Seq<Seq<char>>) {
    let (pr, body) = split_priority(s);
    let ws = words(body);
    (join_words(plain_words(ws)), pr, tags_of(ws))
}

/// Meeting time, duration and the remaining text of the part of an entry line after
/// its marker. A bracket whose time does not parse gives neither time nor duration.
pub open spec fn meeting_split(s: Seq<char>) -> (Option<ClockTime>, Option<u32>, Seq<char>) {
    if meeting_mark().is_prefix_of(s) {
        let body = s.skip(meeting_mark().len() as int);
        match first_index(body, ']') {
            Some(k) => {
                let parts = words(body.take(k));
                let after = trim_start(body.skip(k + 1));
                let t = if parts.len() > 0 {
                    hhmm_of(parts[0])
                } else {
                    None
                };
                match t {
                    Some((h, m)) => (
                        Some(ClockTime { hour: h, minute: m }),
                        if parts.len() > 1 {
                            parsed_u32(parts[1])
                        } else {
                            None
                        },
                        after,
                    ),
                    None => (None, None, after),
                }
            },
            None => (None, None, s),
        }
    } else {
        (None, None, s)
    }
}

/// The note lines that directly follow line `i - 1`, without their prefix.
pub open spec fn notes_from(lines: Seq<Seq<char>>, i: int) -> Seq<Seq<char>>
    decreases lines.len() - i,
{
    if 0 <= i < lines.len() && note_mark().is_prefix_of(lines[i]) {
        seq![lines[i].skip(note_mark().len() as int)] + notes_from(lines, i + 1)
    } else {
        seq![]
    }
}

/// The entry that starts at line `i`, given its marker and the text after it.
pub open spec fn bullet_at(
    lines: Seq<Seq<char>>,
    i: int,
    visible: int,
    completed: bool,
    rest: Seq<char>,
) -> BulletView {
    let (mt, dur, remaining) = meeting_split(rest);
    let (text, pr, tags) = meta_of(remaining);
    BulletView {
        line_index: i,
        visible_index: visible,
        completed,
        text,
        priority: pr,
        tags,
        notes: notes_from(lines, i + 1),
        meeting_time: mt,
        meeting_duration_min: dur,
    }
}

/// The entries that start among the first `n` lines, numbered from 1.
pub open spec fn decode_upto(lines: Seq<Seq<char>>, n: int) -> Seq<BulletView>
    decreases n,
{
    if n <= 0 {
        seq![]
    } else {
        let prev = decode_upto(lines, n - 1);
        match entry_head(lines[n - 1]) {
            Some((done, rest)) => prev.push(
                bullet_at(lines, n - 1, prev.len() + 1 as int, done, rest),
            ),
            None => prev,
        }
    }
}

/// The entries of a day file, in line order.
pub open spec fn decode(lines: Seq<Seq<char>>) -> Seq<BulletView> {
    decode_upto(lines, lines.len() as int)
}

/// The priority marker written for a priority; none for other values.
pub open spec fn priority_prefix(pr: Option<u8>) -> Seq<char> {
    match pr {
        Some(3) => high_mark(),
        Some(2) => medium_mark(),
        Some(1) => low_mark(),
        _ => seq![],
    }
}

/// ` #tag` for each tag, in order.
pub open spec fn tag_suffix(tags: Seq<Seq<char>>) -> Seq<char>
    decreases tags.len(),
{
    if tags.len() == 0 {
        seq![]
    } else {
        tag_suffix(tags.drop_last()) + seq![' ', '#'] + tags.last()
    }
}

/// The meeting bracket with its trailing space, or nothing.
pub open spec fn meeting_bracket(mt: Option<ClockTime>, dur: Option<u32>) -> Seq<char> {
    match mt {
        Some(t) => meeting_mark() + hhmm_text(t) + match dur {
            Some(d) => seq![' '] + decimal(d as nat),
            None => seq![],
        } + "] "@,
        None => seq![],
    }
}

/// A line: marker, bracket, priority marker, body and tags, in that order.
pub open spec fn entry_line(
    marker: Seq<char>,
    bracket: Seq<char>,
    pr: Option<u8>,
    body: Seq<char>,
    tags: Seq<Seq<char>>,
) -> Seq<char> {
    marker + bracket + priority_prefix(pr) + body + tag_suffix(tags)
}

/// One note line for each note.
pub open spec fn note_lines(notes: Seq<Seq<char>>) -> Seq<Seq<char>> {
    notes.map_values(|n: Seq<char>| note_mark() + n)
}

/// The lines that encode an entry.
pub open spec fn encode_spec(b: BulletView) -> Seq<Seq<char>> {
    let marker = if b.completed {
        done_mark()
    } else {
        open_mark()
    };
    seq![
        entry_line(
            marker,
            meeting_bracket(b.meeting_time, b.meeting_duration_min),
            b.priority,
            b.text,
            b.tags,
        ),
    ] + note_lines(b.notes)
}

/// A meeting time in range, and a duration only beside a time.
pub open spec fn meeting_ok(mt: Option<ClockTime>, dur: Option<u32>) -> bool {
    &&& mt matches Some(t) ==> t.valid()
    &&& dur is Some ==> mt is Some
}

/// Splits off the priority marker and the tags of an entry's text.
pub fn parse_text_meta_only(rest: &str) -> (r: (String, Option<u8>, Vec<String>))
    ensures
        (r.0@, r.1, seqs(r.2@)) == meta_of(rest@),
{
    let cs = chars_of(rest);
    let (pr, k): (Option<u8>, usize) = if has_prefix_at(&cs, 0, "(!!!) ") {
        (Some(3), "(!!!) ".unicode_len())
    } else if has_prefix_at(&cs, 0, "(!!) ") {
        (Some(2), "(!!) ".unicode_len())
    } else if has_prefix_at(&cs, 0, "(!) ") {
        (Some(1), "(!) ".unicode_len())
    } else {
        (None, 0)
    };
    assert(cs@.skip(0) =~= cs@);
    let body = suffix_from(rest, k);
    assert(split_priority(rest@) == (pr, body@)) by {
        assert(rest@.skip(0) =~= rest@);
    }
    let ws = split_words(body.as_str());
    let ghost all = seqs(ws@);
    let mut tags: Vec<String> = Vec::new();
    let mut kept: Vec<String> = Vec::new();
    let mut i: usize = 0;
    assert(all.take(0) =~= Seq::<Seq<char>>::empty());
    while i < ws.len()
        invariant
            all == seqs(ws@),
            i <= ws@.len(),
            seqs(tags@) == tags_of(all.take(i as int)),
            seqs(kept@) == plain_words(all.take(i as int)),
        decreases ws.len() - i,
    {
        let ghost t = all.take(i + 1);
        assert(t.drop_last() =~= all.take(i as int));
        assert(t.last() == ws@[i as int]@);
        let w = ws[i].as_str();
        let n = w.unicode_len();
        if n > 1 && w.get_char(0) == '#' {
            let ghost before = tags@;
            let tag = suffix_from(w, 1);
            tags.push(tag);
            assert(seqs(tags@) =~= seqs(before).push(tag@));
        } else {
            let ghost before = kept@;
            let word = ws[i].clone();
            kept.push(word);
            assert(seqs(kept@) =~= seqs(before).push(word@));
        }
        i = i + 1;
    }
    assert(all.take(ws@.len() as int) =~= all);
    let text = join_with_spaces(&kept);
    (text, pr, tags)
}

/// Splits off the meeting bracket, the priority marker and the tags of an entry's text.
pub fn parse_text_meeting_meta(rest: &str) -> (r: (
    String,
    Option<u8>,
    Vec<String>,
    Option<ClockTime>,
    Option<u32>,
))
    ensures
        ({
            let (mt, dur, remaining) = meeting_split(rest@);
            (r.0@, r.1, seqs(r.2@)) == meta_of(remaining) && r.3 == mt && r.4 == dur
        }),
        meeting_ok(r.3, r.4),
{
    let cs = chars_of(rest);
    let mut remaining = String::from_str(rest);
    let mut mt: Option<ClockTime> = None;
    let mut dur: Option<u32> = None;
    assert(cs@.skip(0) =~= cs@);
    if has_prefix_at(&cs, 0, "[mtg ") {
        let body = suffix_from(rest, "[mtg ".unicode_len());
        let bcs = chars_of(body.as_str());
        proof {
            lemma_first_index_bounds(body@, ']');
        }
        match find_char(&bcs, ']') {
            Some(k) => {
                let inner = String::from_str(body.as_str().substring_char(0, k));
                let after = suffix_from(body.as_str(), k + 1);
                let parts = split_words(inner.as_str());
                assert(inner@ =~= body@.take(k as int));
                if parts.len() > 0 {
                    assert(seqs(parts@)[0] == parts@[0]@);
                    match parse_hhmm(parts[0].as_str()) {
                        Some((h, m)) => {
                            mt = Some(ClockTime { hour: h, minute: m });
                            if parts.len() > 1 {
                                assert(seqs(parts@)[1] == parts@[1]@);
                                dur = parse_u32(parts[1].as_str());
                            }
                        },
                        None => {},
                    }
                }
                let acs = chars_of(after.as_str());
                let a = leading_ws(&acs);
                remaining = suffix_from(after.as_str(), a);
            },
            None => {},
        }
    }
    let (text, pr, tags) = parse_text_meta_only(remaining.as_str());
    (text, pr, tags, mt, dur)
}

/// The note lines that directly follow line `from - 1`, without their prefix.
pub fn collect_notes(lines: &Vec<String>, from: usize) -> (r: Vec<String>)
    ensures
        seqs(r@) == notes_from(seqs(lines@), from as int),
{
    let ghost ls = seqs(lines@);
    let mut notes: Vec<String> = Vec::new();
    let mut i: usize = from;
    let mut more = true;
    while more && i < lines.len()
        invariant
            ls == seqs(lines@),
            from <= i,
            more ==> notes_from(ls, from as int) == seqs(notes@) + notes_from(ls, i as int),
            !more ==> notes_from(ls, from as int) == seqs(notes@),
        decreases lines@.len() - i + if more { 1int } else { 0int },
    {
        let line = lines[i].as_str();
        let cs = chars_of(line);
        assert(cs@.skip(0) =~= cs@);
        assert(ls[i as int] == line@);
        if has_prefix_at(&cs, 0, "  - note: ") {
            let ghost before = notes@;
            let n = suffix_from(line, "  - note: ".unicode_len());
            notes.push(n);
            assert(seqs(notes@) =~= seqs(before).push(n@));
            assert(seqs(before) + notes_from(ls, i as int) =~= seqs(notes@) + notes_from(ls, i + 1));
            i = i + 1;
        } else {
            assert(seqs(notes@) + notes_from(ls, i as int) =~= seqs(notes@));
            more = false;
        }
    }
    if more {
        assert(seqs(notes@) + notes_from(ls, i as int) =~= seqs(notes@));
    }
    notes
}

/// Whether the line starts an entry, whether that entry is done, and the text after its marker.
pub fn entry_head_of(line: &str) -> (r: Option<(bool, String)>)
    ensures
        r matches Some((done, rest)) ==> entry_head(line@) == Some((done, rest@)),
        r is None ==> entry_head(line@) is None,
{
    let cs = chars_of(line);
    let n = cs.len();
    let k = leading_ws(&cs);
    if has_prefix_at(&cs, k, "- [ ] ") {
        let m = "- [ ] ".unicode_len();
        assert(m <= cs@.skip(k as int).len());
        assert(line@.skip(k as int).skip(m as int) =~= line@.skip(k + m));
        Some((false, suffix_from(line, k + m)))
    } else if has_prefix_at(&cs, k, "- [x] ") {
        let m = "- [x] ".unicode_len();
        assert(m <= cs@.skip(k as int).len());
        assert(line@.skip(k as int).skip(m as int) =~= line@.skip(k + m));
        Some((true, suffix_from(line, k + m)))
    } else {
        None
    }
}

/// Decodes the entries of a day file, numbering them from 1 in line order.
pub fn parse_bullets(lines: &Vec<String>) -> (r: Vec<Bullet>)
    ensures
        views(r@) == decode(seqs(lines@)),
        forall|i: int| 0 <= i < r@.len() ==> meeting_ok(#[trigger] r@[i].meeting_time, r@[i].meeting_duration_min),
{
    let ghost ls = seqs(lines@);
    let mut out: Vec<Bullet> = Vec::new();
    let mut idx: usize = 0;
    while idx < lines.len()
        invariant
            ls == seqs(lines@),
            idx <= lines@.len(),
            views(out@) == decode_upto(ls, idx as int),
            out@.len() <= idx,
            forall|i: int| 0 <= i < out@.len() ==> meeting_ok(#[trigger] out@[i].meeting_time, out@[i].meeting_duration_min),
        decreases lines.len() - idx,
    {
        assert(ls[idx as int] == lines@[idx as int]@);
        match entry_head_of(lines[idx].as_str()) {
            Some((completed, rest)) => {
                let (text, pr, tags, mt, dur) = parse_text_meeting_meta(rest.as_str());
                let notes = collect_notes(lines, idx + 1);
                let ghost before = out@;
                let b = Bullet {
                    line_index: idx,
                    visible_index: out.len() + 1,
                    completed,
                    text,
                    priority: pr,
                    tags,
                    notes,
                    meeting_time: mt,
                    meeting_duration_min: dur,
                };
                out.push(b);
                assert(views(out@) =~= views(before).push(b@));
            },
            None => {},
        }
        idx = idx + 1;
    }
    out
}

/// The priority marker for a priority.
fn priority_marker(pr: Option<u8>) -> (r: &'static str)
    ensures
        r@ == priority_prefix(pr),
{
    match pr {
        Some(3) => "(!!!) ",
        Some(2) => "(!!) ",
        Some(1) => "(!) ",
        _ => {
            proof {
                reveal_strlit("");
            }
            ""
        },
    }
}

/// Marker, bracket, priority marker, body and tags, in that order.
pub fn compose_line(
    marker: &str,
    bracket: &str,
    pr: Option<u8>,
    body: &str,
    tags: &Vec<String>,
) -> (r: String)
    ensures
        r@ == entry_line(marker@, bracket@, pr, body@, seqs(tags@)),
{
    let mut line = String::from_str(marker);
    line.append(bracket);
    line.append(priority_marker(pr));
    line.append(body);
    let ghost head = line@;
    let mut i: usize = 0;
    assert(seqs(tags@).take(0) =~= Seq::<Seq<char>>::empty());
    while i < tags.len()
        invariant
            i <= tags@.len(),
            line@ == head + tag_suffix(seqs(tags@).take(i as int)),
        decreases tags.len() - i,
    {
        let ghost t = seqs(tags@).take(i + 1);
        assert(t.drop_last() =~= seqs(tags@).take(i as int));
        assert(t.last() == tags@[i as int]@);
        proof {
            reveal_strlit(" #");
        }
        assert(" #"@ =~= seq![' ', '#']);
        line.append(" #");
        line.append(tags[i].as_str());
        assert(tag_suffix(t) == tag_suffix(t.drop_last()) + seq![' ', '#'] + t.last());
        assert(line@ =~= head + tag_suffix(t));
        i = i + 1;
    }
    assert(seqs(tags@).take(tags@.len() as int) =~= seqs(tags@));
    line
}

/// The meeting bracket with its trailing space, or nothing.
pub fn bracket_text(mt: Option<ClockTime>, dur: Option<u32>) -> (r: String)
    requires
        meeting_ok(mt, dur),
    ensures
        r@ == meeting_bracket(mt, dur),
{
    match mt {
        Some(t) => {
            let mut s = String::from_str("[mtg ");
            assert(ClockTime { hour: t.hour, minute: t.minute } == t);
            s.append(format_hhmm(t.hour, t.minute).as_str());
            match dur {
                Some(d) => {
                    proof {
                        reveal_strlit(" ");
                    }
                    s.append(" ");
                    assert(" "@ =~= seq![' ']);
                    s.append(u32_text(d).as_str());
                },
                None => {
                    proof {
                        reveal_strlit("");
                    }
                },
            }
            s.append("] ");
            assert(s@ =~= meeting_bracket(mt, dur));
            s
        },
        None => String::new(),
    }
}

/// The note lines for the notes, in order.
pub fn note_lines_of(notes: &Vec<String>) -> (r: Vec<String>)
    ensures
        seqs(r@) == note_lines(seqs(notes@)),
{
    let mut out: Vec<String> = Vec::new();
    let mut i: usize = 0;
    while i < notes.len()
        invariant
            i <= notes@.len(),
            seqs(out@) == note_lines(seqs(notes@).take(i as int)),
        decreases notes.len() - i,
    {
        let ghost before = out@;
        let mut line = String::from_str("  - note: ");
        line.append(notes[i].as_str());
        assert(line@ == note_mark() + seqs(notes@)[i as int]);
        out.push(line);
        assert(seqs(notes@).take(i + 1) =~= seqs(notes@).take(i as int).push(seqs(notes@)[i as int]));
        assert(note_lines(seqs(notes@).take(i + 1)) =~= note_lines(seqs(notes@).take(i as int)).push(line@));
        assert(seqs(out@) =~= seqs(before).push(line@));
        i = i + 1;
    }
    assert(seqs(notes@).take(notes@.len() as int) =~= seqs(notes@));
    out
}

/// The lines that encode an entry: its line in canonical order, then one line per note.
pub fn encode(b: &Bullet) -> (r: Vec<String>)
    requires
        meeting_ok(b.meeting_time, b.meeting_duration_min),
    ensures
        seqs(r@) == encode_spec(b@),
{
    let marker = if b.completed {
        "- [x] "
    } else {
        "- [ ] "
    };
    let bracket = bracket_text(b.meeting_time, b.meeting_duration_min);
    let line = compose_line(marker, bracket.as_str(), b.priority, b.text.as_str(), &b.tags);
    let ghost first = line@;
    let mut out: Vec<String> = Vec::new();
    out.push(line);
    let mut notes = note_lines_of(&b.notes);
    let ghost tail = notes@;
    out.append(&mut notes);
    assert(seqs(out@) =~= seq![first] + seqs(tail));
    out
}

} // verus!
