//! Edits of a day file: add, complete, delete and migrate entries.
use vstd::prelude::*;
use crate::clock::ClockTime;
use crate::codec::{
    Bullet, BulletView, views, decode, decode_upto, entry_head, bullet_at, open_mark, done_mark,
    entry_line, note_lines, meeting_bracket, meeting_ok, parse_bullets, compose_line,
    note_lines_of, bracket_text, is_entry_line, entry_head_of,
};
use crate::text::{trim, trim_start, is_blank, seqs, trimmed, chars_of, leading_ws, suffix_from, blank, has_prefix_at};

verus! {

/// A calendar date.
#[derive(Clone, Copy, Debug, PartialEq, Eq, Structural)]
pub struct Date {
    pub year: i32,
    pub month: u32,
    pub day: u32,
}

/// Why an operation on the journal failed.
#[derive(Clone, Debug, PartialEq, Eq)]
pub enum JournalError {
    /// No entry has this visible index on the date.
    NotFound(usize),
    /// The entry to migrate is already done.
    AlreadyCompleted(usize),
    /// Source and destination of a migration are the same date.
    InvalidOperation,
    /// A priority name that is not known.
    InvalidPriority(String),
    /// Reading or writing a day file failed.
    StorageUnavailable(String),
}

/// Shape of the decoded entries: numbered from 1, in strictly increasing line order,
/// each decoded from the line where it starts.
pub proof fn lemma_decode_shape(lines: Seq<Seq<char>>, n: int)
    requires
        0 <= n <= lines.len(),
    ensures
        decode_upto(lines, n).len() <= n,
        forall|i: int|
            0 <= i < decode_upto(lines, n).len() ==> {
                let b = #[trigger] decode_upto(lines, n)[i];
                &&& b.visible_index == i + 1
                &&& 0 <= b.line_index < n
                &&& entry_head(lines[b.line_index]) matches Some((done, rest)) && done
                    == b.completed && b == bullet_at(lines, b.line_index, i + 1, done, rest)
            },
        forall|i: int, j: int|
            0 <= i < j < decode_upto(lines, n).len() ==> decode_upto(lines, n)[i].line_index
                < decode_upto(lines, n)[j].line_index,
    decreases n,
{
    if n > 0 {
        lemma_decode_shape(lines, n - 1);
    }
}

/// Whether the line is indented like a note and does not start an entry.
pub open spec fn is_note_like(line: Seq<char>) -> bool {
    "  "@.is_prefix_of(line) && !is_entry_line(line)
}

/// The end of the block of note-like and blank lines that starts at line `i`.
pub open spec fn block_end(lines: Seq<Seq<char>>, i: int) -> int
    decreases lines.len() - i,
{
    if 0 <= i < lines.len() && (is_blank(lines[i]) || is_note_like(lines[i])) {
        block_end(lines, i + 1)
    } else {
        i
    }
}

/// The blank lines among the lines, in order.
pub open spec fn blanks(s: Seq<Seq<char>>) -> Seq<Seq<char>>
    decreases s.len(),
{
    if s.len() == 0 {
        seq![]
    } else if is_blank(s.last()) {
        blanks(s.drop_last()).push(s.last())
    } else {
        blanks(s.drop_last())
    }
}

/// The lines after deleting the entry at line `li` and the note block under it.
/// Blank lines inside the block stay.
pub open spec fn delete_spec(lines: Seq<Seq<char>>, li: int) -> Seq<Seq<char>> {
    let e = block_end(lines, li + 1);
    lines.take(li) + blanks(lines.subrange(li + 1, e)) + lines.skip(e)
}

/// The lines that `add_bullet` appends.
pub open spec fn added_lines(
    text: Seq<char>,
    pr: Option<u8>,
    tags: Seq<Seq<char>>,
    notes: Seq<Seq<char>>,
) -> Seq<Seq<char>> {
    seq![entry_line(open_mark(), seq![], pr, trim(text), tags)] + note_lines(notes)
}

/// The line of an open entry with its marker turned into the done marker.
pub open spec fn line_done(line: Seq<char>) -> Seq<char> {
    let k = line.len() - trim_start(line).len();
    line.take(k) + done_mark() + line.skip(k + open_mark().len())
}

/// The lines after completing entry `id`, which exists.
pub open spec fn complete_spec(lines: Seq<Seq<char>>, id: int) -> Seq<Seq<char>> {
    let b = decode(lines)[id - 1];
    if b.completed {
        lines
    } else {
        lines.update(b.line_index, line_done(lines[b.line_index]))
    }
}

pub open spec fn has_entry(lines: Seq<Seq<char>>, id: int) -> bool {
    1 <= id <= decode(lines).len()
}

/// The line that migrating an open entry appends to the destination: the entry
/// encoded as open, in canonical order, without its notes.
pub open spec fn migrated_lines(b: BulletView) -> Seq<Seq<char>> {
    seq![
        entry_line(
            open_mark(),
            meeting_bracket(b.meeting_time, b.meeting_duration_min),
            b.priority,
            b.text,
            b.tags,
        ),
    ]
}

/// What migrating the open entries appends to the destination: the last entry first.
pub open spec fn migrated_all(bs: Seq<BulletView>) -> Seq<Seq<char>>
    decreases bs.len(),
{
    if bs.len() == 0 {
        seq![]
    } else {
        (if bs.last().completed {
            seq![]
        } else {
            migrated_lines(bs.last())
        }) + migrated_all(bs.drop_last())
    }
}

/// The source lines without the lines of the open entries, removed last first.
pub open spec fn without_open(lines: Seq<Seq<char>>, bs: Seq<BulletView>) -> Seq<Seq<char>>
    decreases bs.len(),
{
    if bs.len() == 0 {
        lines
    } else {
        let b = bs.last();
        let next = if b.completed {
            lines
        } else {
            lines.remove(b.line_index)
        };
        without_open(next, bs.drop_last())
    }
}

/// The number of open entries.
pub open spec fn open_count(bs: Seq<BulletView>) -> nat
    decreases bs.len(),
{
    if bs.len() == 0 {
        0
    } else {
        open_count(bs.drop_last()) + if bs.last().completed {
            0nat
        } else {
            1nat
        }
    }
}

/// Appends a new open entry, and one line per note, at the end of the day.
pub fn add_bullet(
    lines: &mut Vec<String>,
    text: &str,
    priority: Option<u8>,
    tags: &Vec<String>,
    notes: &Vec<String>,
)
    ensures
        seqs(final(lines)@) == seqs(old(lines)@) + added_lines(
            text@,
            priority,
            seqs(tags@),
            seqs(notes@),
        ),
{
    let body = trimmed(text);
    proof {
        reveal_strlit("");
    }
    let line = compose_line("- [ ] ", "", priority, body.as_str(), tags);
    let ghost before = lines@;
    lines.push(line);
    let mut more = note_lines_of(notes);
    let ghost tail = more@;
    lines.append(&mut more);
    assert(seqs(lines@) =~= seqs(before) + added_lines(text@, priority, seqs(tags@), seqs(notes@)));
}

/// Appends a new open meeting: the bracket with time and duration, then the title.
pub fn add_meeting(
    lines: &mut Vec<String>,
    time: ClockTime,
    duration_min: u32,
    title: &str,
    tags: &Vec<String>,
    notes: &Vec<String>,
)
    requires
        time.valid(),
    ensures
        seqs(final(lines)@) == seqs(old(lines)@) + added_lines(
            meeting_bracket(Some(time), Some(duration_min)) + title@,
            None,
            seqs(tags@),
            seqs(notes@),
        ),
{
    let mut full = bracket_text(Some(time), Some(duration_min));
    full.append(title);
    add_bullet(lines, full.as_str(), None, tags, notes);
}

/// The entry with visible index `id`.
fn find_bullet(bullets: &Vec<Bullet>, id: usize) -> (r: Option<usize>)
    ensures
        r matches Some(k) ==> k == id - 1 && 1 <= id <= bullets@.len(),
        r is None ==> !(1 <= id <= bullets@.len()),
{
    if id == 0 || id > bullets.len() {
        None
    } else {
        Some(id - 1)
    }
}

/// Marks entry `id` done; an entry that is already done stays as it is.
pub fn mark_done(lines: &mut Vec<String>, id: usize) -> (r: Result<(), JournalError>)
    ensures
        has_entry(seqs(old(lines)@), id as int) <==> r is Ok,
        r is Err ==> r == Err::<(), JournalError>(JournalError::NotFound(id)) && final(lines)@ == old(lines)@,
        r is Ok ==> seqs(final(lines)@) == complete_spec(seqs(old(lines)@), id as int),
{
    let ghost ls = seqs(lines@);
    let bullets = parse_bullets(lines);
    proof {
        lemma_decode_shape(ls, ls.len() as int);
    }
    let k = match find_bullet(&bullets, id) {
        Some(k) => k,
        None => {
            return Err(JournalError::NotFound(id));
        },
    };
    assert(views(bullets@)[k as int] == bullets@[k as int]@);
    assert(decode_upto(ls, ls.len() as int)[k as int] == bullets@[k as int]@);
    let li = bullets[k].line_index;
    if !bullets[k].completed {
        let line = lines[li].as_str();
        assert(ls[li as int] == line@);
        let cs = chars_of(line);
        let n = cs.len();
        let w = leading_ws(&cs);
        proof {
            let bv = decode_upto(ls, ls.len() as int)[k as int];
            assert(bv.line_index == li);
            assert(!bv.completed);
            match entry_head(ls[li as int]) {
                Some((done, rest)) => {
                    assert(done == false);
                },
                None => {},
            }
            assert(open_mark().is_prefix_of(trim_start(line@)));
        }
        let m = "- [ ] ".unicode_len();
        let mut done = String::from_str(line.substring_char(0, w));
        done.append("- [x] ");
        done.append(suffix_from(line, w + m).as_str());
        assert(done@ =~= line_done(line@));
        let ghost before = lines@;
        lines.set(li, done);
        assert(seqs(lines@) =~= ls.update(li as int, line_done(ls[li as int])));
    }
    Ok(())
}

/// Deletes entry `id` and the note block under it; blank lines in the block stay.
pub fn delete_bullet(lines: &mut Vec<String>, id: usize) -> (r: Result<(), JournalError>)
    ensures
        has_entry(seqs(old(lines)@), id as int) <==> r is Ok,
        r is Err ==> r == Err::<(), JournalError>(JournalError::NotFound(id)) && final(lines)@ == old(lines)@,
        r is Ok ==> seqs(final(lines)@) == delete_spec(
            seqs(old(lines)@),
            decode(seqs(old(lines)@))[id - 1].line_index,
        ),
{
    let ghost ls = seqs(lines@);
    let bullets = parse_bullets(lines);
    proof {
        lemma_decode_shape(ls, ls.len() as int);
    }
    let k = match find_bullet(&bullets, id) {
        Some(k) => k,
        None => {
            return Err(JournalError::NotFound(id));
        },
    };
    assert(views(bullets@)[k as int] == bullets@[k as int]@);
    let li = bullets[k].line_index;
    let n = lines.len();
    let mut out: Vec<String> = Vec::new();
    let mut i: usize = 0;
    while i < li
        invariant
            ls == seqs(lines@),
            li < n == lines@.len(),
            i <= li,
            seqs(out@) == ls.take(i as int),
        decreases li - i,
    {
        let ghost before = out@;
        out.push(lines[i].clone());
        assert(seqs(out@) =~= seqs(before).push(ls[i as int]));
        assert(seqs(out@) =~= ls.take(i + 1));
        i = i + 1;
    }
    let ghost head = seqs(out@);
    let mut j: usize = li + 1;
    let mut more = true;
    assert(ls.subrange(li + 1, li + 1) =~= Seq::<Seq<char>>::empty());
    while more && j < n
        invariant
            ls == seqs(lines@),
            li < n == lines@.len(),
            li + 1 <= j <= n,
            head == ls.take(li as int),
            seqs(out@) == head + blanks(ls.subrange(li + 1, j as int)),
            more ==> block_end(ls, li + 1) == block_end(ls, j as int),
            !more ==> block_end(ls, li + 1) == j,
        decreases n - j + if more { 1int } else { 0int },
    {
        let line = lines[j].as_str();
        assert(ls[j as int] == line@);
        let ghost sub = ls.subrange(li + 1, j + 1);
        assert(sub.drop_last() =~= ls.subrange(li + 1, j as int));
        assert(sub.last() == line@);
        if blank(line) {
            let ghost before = out@;
            out.push(lines[j].clone());
            assert(seqs(out@) =~= seqs(before).push(ls[j as int]));
            assert(seqs(out@) =~= head + blanks(sub));
            j = j + 1;
        } else {
            let cs = chars_of(line);
            assert(cs@.skip(0) =~= cs@);
            let indented = has_prefix_at(&cs, 0, "  ");
            let starts = entry_head_of(line);
            if indented && starts.is_none() {
                assert(seqs(out@) =~= head + blanks(sub));
                j = j + 1;
            } else {
                more = false;
            }
        }
    }
    if more {
        assert(block_end(ls, j as int) == j);
    }
    let e = j;
    while j < n
        invariant
            ls == seqs(lines@),
            n == lines@.len(),
            li + 1 <= e <= j <= n,
            seqs(out@) == head + blanks(ls.subrange(li + 1, e as int)) + ls.subrange(e as int, j as int),
        decreases n - j,
    {
        let ghost before = out@;
        out.push(lines[j].clone());
        assert(seqs(out@) =~= seqs(before).push(ls[j as int]));
        assert(ls.subrange(e as int, j + 1) =~= ls.subrange(e as int, j as int).push(ls[j as int]));
        assert(seqs(out@) =~= head + blanks(ls.subrange(li + 1, e as int)) + ls.subrange(e as int, j + 1));
        j = j + 1;
    }
    assert(ls.subrange(e as int, n as int) =~= ls.skip(e as int));
    *lines = out;
    Ok(())
}

/// The line that an entry is migrated with: encoded as open, without notes.
fn migration_line(b: &Bullet) -> (r: String)
    requires
        meeting_ok(b.meeting_time, b.meeting_duration_min),
    ensures
        seq![r@] == migrated_lines(b@),
{
    let bracket = bracket_text(b.meeting_time, b.meeting_duration_min);
    compose_line("- [ ] ", bracket.as_str(), b.priority, b.text.as_str(), &b.tags)
}

/// Moves open entry `id` from one date to the end of another, without its notes;
/// only its own line leaves the source.
pub fn migrate_one(
    from: Date,
    to: Date,
    from_lines: &mut Vec<String>,
    to_lines: &mut Vec<String>,
    id: usize,
) -> (r: Result<(), JournalError>)
    ensures
        from == to ==> r == Err::<(), JournalError>(JournalError::InvalidOperation),
        from != to && !has_entry(seqs(old(from_lines)@), id as int) ==> r == Err::<
            (),
            JournalError,
        >(JournalError::NotFound(id)),
        from != to && has_entry(seqs(old(from_lines)@), id as int) && decode(
            seqs(old(from_lines)@),
        )[id - 1].completed ==> r == Err::<(), JournalError>(JournalError::AlreadyCompleted(id)),
        from != to && has_entry(seqs(old(from_lines)@), id as int) && !decode(
            seqs(old(from_lines)@),
        )[id - 1].completed ==> r is Ok,
        r is Err ==> final(from_lines)@ == old(from_lines)@ && final(to_lines)@ == old(to_lines)@,
        r is Ok ==> ({
            let b = decode(seqs(old(from_lines)@))[id - 1];
            &&& from != to && has_entry(seqs(old(from_lines)@), id as int) && !b.completed
            &&& seqs(final(to_lines)@) == seqs(old(to_lines)@) + migrated_lines(b)
            &&& seqs(final(from_lines)@) == seqs(old(from_lines)@).remove(b.line_index)
        }),
{
    if from == to {
        return Err(JournalError::InvalidOperation);
    }
    let ghost ls = seqs(from_lines@);
    let bullets = parse_bullets(from_lines);
    proof {
        lemma_decode_shape(ls, ls.len() as int);
    }
    let k = match find_bullet(&bullets, id) {
        Some(k) => k,
        None => {
            return Err(JournalError::NotFound(id));
        },
    };
    assert(views(bullets@)[k as int] == bullets@[k as int]@);
    let b = &bullets[k];
    if b.completed {
        return Err(JournalError::AlreadyCompleted(id));
    }
    let line = migration_line(b);
    let ghost to_before = to_lines@;
    to_lines.push(line);
    assert(seqs(to_lines@) =~= seqs(to_before) + migrated_lines(bullets@[k as int]@));
    let ghost before = from_lines@;
    from_lines.remove(b.line_index);
    assert(seqs(from_lines@) =~= seqs(before).remove(b.line_index as int));
    Ok(())
}

/// Moves every entry that was open when the source was read to the end of the
/// destination, last entry first, and removes each one's line from the source.
/// Returns how many moved.
pub fn migrate_open(
    from: Date,
    to: Date,
    from_lines: &mut Vec<String>,
    to_lines: &mut Vec<String>,
) -> (r: Result<usize, JournalError>)
    ensures
        from == to <==> r is Err,
        r is Err ==> r == Err::<usize, JournalError>(JournalError::InvalidOperation)
            && final(from_lines)@ == old(from_lines)@ && final(to_lines)@ == old(to_lines)@,
        r matches Ok(moved) ==> ({
            let bs = decode(seqs(old(from_lines)@));
            &&& moved == open_count(bs)
            &&& seqs(final(to_lines)@) == seqs(old(to_lines)@) + migrated_all(bs)
            &&& seqs(final(from_lines)@) == without_open(seqs(old(from_lines)@), bs)
        }),
{
    if from == to {
        return Err(JournalError::InvalidOperation);
    }
    let ghost ls = seqs(from_lines@);
    let ghost old_to = seqs(to_lines@);
    let bullets = parse_bullets(from_lines);
    let ghost bs = views(bullets@);
    proof {
        lemma_decode_shape(ls, ls.len() as int);
        assert forall|a: int| 0 <= a < bs.len() implies #[trigger] bs[a].line_index < ls.len() by {
            assert(decode_upto(ls, ls.len() as int)[a] == bs[a]);
        }
    }
    let nb = bullets.len();
    let mut j: usize = nb;
    let mut moved: usize = 0;
    assert(bs.take(j as int) =~= bs);
    while j > 0
        invariant
            bs == views(bullets@),
            bs == decode(ls),
            j <= bullets@.len(),
            forall|i: int| 0 <= i < bullets@.len() ==> meeting_ok(#[trigger] bullets@[i].meeting_time, bullets@[i].meeting_duration_min),
            forall|a: int, c: int| 0 <= a < c < bs.len() ==> bs[a].line_index < bs[c].line_index,
            forall|a: int| 0 <= a < j ==> #[trigger] bs[a].line_index < from_lines@.len(),
            without_open(ls, bs) == without_open(seqs(from_lines@), bs.take(j as int)),
            seqs(to_lines@) + migrated_all(bs.take(j as int)) == old_to + migrated_all(bs),
            moved + open_count(bs.take(j as int)) == open_count(bs),
            nb == bullets@.len(),
            moved <= nb - j,
        decreases j,
    {
        let ghost t = bs.take(j as int);
        assert(t.drop_last() =~= bs.take(j - 1));
        assert(t.last() == bs[j - 1]);
        assert(bs[j - 1] == bullets@[j - 1]@);
        let b = &bullets[j - 1];
        if !b.completed {
            let line = migration_line(b);
            let ghost to_before = seqs(to_lines@);
            let ghost old_to_lines = to_lines@;
            to_lines.push(line);
            assert(seqs(to_lines@) =~= seqs(old_to_lines) + migrated_lines(bs[j - 1]));
            assert(seqs(to_lines@) + migrated_all(bs.take(j - 1)) =~= to_before + migrated_all(t));
            let ghost from_before = from_lines@;
            from_lines.remove(b.line_index);
            assert(seqs(from_lines@) =~= seqs(from_before).remove(b.line_index as int));
            moved = moved + 1;
        } else {
            assert(migrated_all(t) =~= migrated_all(bs.take(j - 1)));
        }
        j = j - 1;
    }
    assert(bs.take(0) =~= Seq::<BulletView>::empty());
    assert(seqs(to_lines@) =~= seqs(to_lines@) + migrated_all(bs.take(0)));
    Ok(moved)
}

} // verus!
