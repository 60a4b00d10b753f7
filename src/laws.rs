//! Properties of the edits, stated over decoded day files and proved.
use vstd::prelude::*;
use crate::codec::{
    BulletView, decode, decode_upto, entry_head, is_entry_line, bullet_at, notes_from, open_mark,
    done_mark, note_mark, priority_prefix, tag_suffix, note_lines, entry_line, meeting_bracket,
    meeting_mark, meeting_split, meeting_ok,
};
use crate::clock::{
    ClockTime, hhmm_text, decimal, digits_value, is_digit, parsed_u32, unsigned_part,
    lemma_digit_char, lemma_hhmm_round_trip, digit_char,
};
use crate::journal::{
    added_lines, complete_spec, has_entry, line_done, lemma_decode_shape, delete_spec, block_end,
    blanks, is_note_like, migrated_all, migrated_lines, without_open, open_count,
};
use crate::text::{trim, trim_start, is_ws, is_blank, words, first_index};

verus! {

/// What the markers of the line format hold.
pub proof fn lemma_marks()
    ensures
        open_mark() == seq!['-', ' ', '[', ' ', ']', ' '],
        done_mark() == seq!['-', ' ', '[', 'x', ']', ' '],
        note_mark() == seq![' ', ' ', '-', ' ', 'n', 'o', 't', 'e', ':', ' '],
{
    reveal_strlit("- [ ] ");
    reveal_strlit("- [x] ");
    reveal_strlit("  - note: ");
    assert(open_mark() =~= seq!['-', ' ', '[', ' ', ']', ' ']);
    assert(done_mark() =~= seq!['-', ' ', '[', 'x', ']', ' ']);
    assert(note_mark() =~= seq![' ', ' ', '-', ' ', 'n', 'o', 't', 'e', ':', ' ']);
}

/// Whether the line is a note line.
pub open spec fn is_note_line(line: Seq<char>) -> bool {
    note_mark().is_prefix_of(line)
}

/// A line that starts with a marker starts an entry, and is no note line.
pub proof fn lemma_marked_line(marker: Seq<char>, rest: Seq<char>)
    requires
        marker == open_mark() || marker == done_mark(),
    ensures
        entry_head(marker + rest) == Some((marker == done_mark(), rest)),
        !is_note_line(marker + rest),
{
    lemma_marks();
    let s = marker + rest;
    assert(s[0] == '-');
    assert(!is_ws(s[0]));
    assert(trim_start(s) == s);
    assert(s.subrange(0, 6) =~= marker);
    assert(s.skip(6) =~= rest);
    if marker == done_mark() {
        assert(s[3] != open_mark()[3]);
        assert(!open_mark().is_prefix_of(s));
    }
    assert(s[0] != note_mark()[0]);
}

/// A note line starts no entry.
pub proof fn lemma_note_line(line: Seq<char>)
    requires
        is_note_line(line),
    ensures
        !is_entry_line(line),
{
    lemma_marks();
    assert(line[0] == ' ' && line[1] == ' ' && line[2] == '-');
    assert(line.drop_first()[0] == ' ');
    assert(line.drop_first().drop_first() =~= line.skip(2));
    assert(trim_start(line.drop_first().drop_first()) == line.skip(2));
    assert(is_ws(line[0]));
    assert(trim_start(line) == trim_start(line.drop_first()));
    assert(is_ws(line.drop_first()[0]));
    assert(trim_start(line.drop_first()) == trim_start(line.drop_first().drop_first()));
    assert(trim_start(line) == line.skip(2));
    assert(line.skip(2)[2] == 'n');
}

/// Appended lines that start with no note line leave the notes before them alone.
proof fn lemma_notes_extend(lines: Seq<Seq<char>>, extra: Seq<Seq<char>>, i: int)
    requires
        0 <= i <= lines.len(),
        extra.len() > 0,
        !is_note_line(extra[0]),
    ensures
        notes_from(lines + extra, i) == notes_from(lines, i),
    decreases lines.len() - i,
{
    if i < lines.len() {
        lemma_notes_extend(lines, extra, i + 1);
    } else {
        assert((lines + extra)[i] == extra[0]);
    }
}

/// Appended lines that start with no note line leave the entries before them alone.
proof fn lemma_decode_extend(lines: Seq<Seq<char>>, extra: Seq<Seq<char>>, n: int)
    requires
        0 <= n <= lines.len(),
        extra.len() > 0,
        !is_note_line(extra[0]),
    ensures
        decode_upto(lines + extra, n) == decode_upto(lines, n),
    decreases n,
{
    if n > 0 {
        lemma_decode_extend(lines, extra, n - 1);
        lemma_notes_extend(lines, extra, n);
        assert((lines + extra)[n - 1] == lines[n - 1]);
    }
}

/// Lines that start no entry add no entry.
proof fn lemma_decode_no_entries(lines: Seq<Seq<char>>, from: int, n: int)
    requires
        0 <= from <= n <= lines.len(),
        forall|j: int| from <= j < n ==> !is_entry_line(#[trigger] lines[j]),
    ensures
        decode_upto(lines, n) == decode_upto(lines, from),
    decreases n - from,
{
    if n > from {
        lemma_decode_no_entries(lines, from, n - 1);
    }
}

/// Appending an open entry line and note lines keeps the entries before them and
/// decodes one more, numbered next, at the appended entry line.
pub proof fn lemma_append_entry(lines: Seq<Seq<char>>, rest: Seq<char>, notes: Seq<Seq<char>>)
    ensures
        ({
            let after = decode(lines + (seq![open_mark() + rest] + note_lines(notes)));
            &&& after.len() == decode(lines).len() + 1
            &&& after.take(decode(lines).len() as int) == decode(lines)
            &&& after.last().visible_index == decode(lines).len() + 1
            &&& after.last().line_index == lines.len()
            &&& !after.last().completed
        }),
{
    let extra = seq![open_mark() + rest] + note_lines(notes);
    let all = lines + extra;
    assert(extra[0] == open_mark() + rest);
    lemma_marked_line(open_mark(), rest);
    lemma_decode_extend(lines, extra, lines.len() as int);
    assert(all[lines.len() as int] == extra[0]);
    let n1 = lines.len() + 1 as int;
    assert forall|j: int| n1 <= j < all.len() implies !is_entry_line(#[trigger] all[j]) by {
        assert(all[j] == note_mark() + notes[j - n1]);
        assert(is_note_line(all[j])) by {
            assert((note_mark() + notes[j - n1]).subrange(0, note_mark().len() as int)
                =~= note_mark());
        }
        lemma_note_line(all[j]);
    }
    lemma_decode_no_entries(all, n1, all.len() as int);
    lemma_decode_shape(all, all.len() as int);
    assert(decode_upto(all, n1).take(decode(lines).len() as int) =~= decode(lines));
}

/// Adding an entry keeps the entries before it and decodes one more, numbered next,
/// at the line where the addition begins.
pub proof fn lemma_add_one(
    lines: Seq<Seq<char>>,
    text: Seq<char>,
    pr: Option<u8>,
    tags: Seq<Seq<char>>,
    notes: Seq<Seq<char>>,
)
    ensures
        ({
            let after = decode(lines + added_lines(text, pr, tags, notes));
            &&& after.len() == decode(lines).len() + 1
            &&& after.take(decode(lines).len() as int) == decode(lines)
            &&& after.last().visible_index == decode(lines).len() + 1
            &&& after.last().line_index == lines.len()
            &&& !after.last().completed
        }),
{
    let rest = priority_prefix(pr) + trim(text) + tag_suffix(tags);
    assert(entry_line(open_mark(), seq![], pr, trim(text), tags) =~= open_mark() + rest);
    assert(added_lines(text, pr, tags, notes) =~= seq![open_mark() + rest] + note_lines(notes));
    lemma_append_entry(lines, rest, notes);
}

/// The arguments of one addition: text, priority, tags and notes.
pub type AddArgs = (Seq<char>, Option<u8>, Seq<Seq<char>>, Seq<Seq<char>>);

/// The lines after the additions, in order.
pub open spec fn after_adds(lines: Seq<Seq<char>>, items: Seq<AddArgs>) -> Seq<Seq<char>>
    decreases items.len(),
{
    if items.len() == 0 {
        lines
    } else {
        let (t, p, g, n) = items.last();
        after_adds(lines, items.drop_last()) + added_lines(t, p, g, n)
    }
}

/// After N additions to an empty day, decoding gives N entries numbered 1 to N, the
/// i-th at the line where the i-th addition began.
pub proof fn lemma_adds_numbered(items: Seq<AddArgs>)
    ensures
        decode(after_adds(seq![], items)).len() == items.len(),
        forall|i: int|
            0 <= i < items.len() ==> (#[trigger] decode(after_adds(seq![], items))[i]).visible_index
                == i + 1 && decode(after_adds(seq![], items))[i].line_index == after_adds(
                seq![],
                items.take(i),
            ).len(),
    decreases items.len(),
{
    if items.len() > 0 {
        let prev = items.drop_last();
        lemma_adds_numbered(prev);
        let (t, p, g, n) = items.last();
        let before = after_adds(seq![], prev);
        lemma_add_one(before, t, p, g, n);
        let d = decode(after_adds(seq![], items));
        assert forall|i: int| 0 <= i < items.len() implies (#[trigger] d[i]).visible_index == i
            + 1 && d[i].line_index == after_adds(seq![], items.take(i)).len() by {
            if i < prev.len() {
                assert(d[i] == d.take(prev.len() as int)[i]);
                assert(items.take(i) =~= prev.take(i));
            } else {
                assert(items.take(i) =~= prev);
            }
        }
    } else {
        assert(decode_upto(seq![], 0).len() == 0);
    }
}

/// Lines with entry starts at the same places decode to entries at the same lines.
proof fn lemma_same_skeleton(a: Seq<Seq<char>>, b: Seq<Seq<char>>, n: int)
    requires
        0 <= n <= a.len() == b.len(),
        forall|j: int| 0 <= j < n ==> is_entry_line(#[trigger] a[j]) == is_entry_line(b[j]),
    ensures
        decode_upto(a, n).len() == decode_upto(b, n).len(),
        forall|k: int|
            0 <= k < decode_upto(a, n).len() ==> (#[trigger] decode_upto(a, n)[k]).line_index
                == decode_upto(b, n)[k].line_index,
    decreases n,
{
    if n > 0 {
        lemma_same_skeleton(a, b, n - 1);
    }
}

/// The leading whitespace of a text, and what trimming it leaves.
proof fn lemma_trim_start_shape(s: Seq<char>)
    ensures
        trim_start(s).len() <= s.len(),
        trim_start(s) == s.skip(s.len() - trim_start(s).len()),
        forall|j: int| 0 <= j < s.len() - trim_start(s).len() ==> is_ws(#[trigger] s[j]),
    decreases s.len(),
{
    if s.len() > 0 && is_ws(s[0]) {
        lemma_trim_start_shape(s.drop_first());
        assert(s.drop_first().skip(s.len() - 1 - trim_start(s).len()) =~= s.skip(
            s.len() - trim_start(s).len(),
        ));
        assert forall|j: int| 0 <= j < s.len() - trim_start(s).len() implies is_ws(
            #[trigger] s[j],
        ) by {
            if j > 0 {
                assert(s[j] == s.drop_first()[j - 1]);
            }
        }
    } else {
        assert(s.skip(0) =~= s);
    }
}

/// Whitespace in front of a text does not change what trimming leaves.
proof fn lemma_trim_start_ws_prefix(p: Seq<char>, s: Seq<char>)
    requires
        forall|j: int| 0 <= j < p.len() ==> is_ws(#[trigger] p[j]),
    ensures
        trim_start(p + s) == trim_start(s),
    decreases p.len(),
{
    if p.len() > 0 {
        assert((p + s)[0] == p[0]);
        assert((p + s).drop_first() =~= p.drop_first() + s);
        lemma_trim_start_ws_prefix(p.drop_first(), s);
    } else {
        assert(p + s =~= s);
    }
}

/// Completing an entry turns its line into a done entry line.
proof fn lemma_line_done(line: Seq<char>)
    requires
        entry_head(line) matches Some((false, _)),
    ensures
        entry_head(line_done(line)) matches Some((true, _)),
{
    lemma_trim_start_shape(line);
    let k = line.len() - trim_start(line).len();
    let rest = line.skip(k + open_mark().len());
    lemma_marks();
    assert(line_done(line) =~= line.take(k) + (done_mark() + rest));
    lemma_trim_start_ws_prefix(line.take(k), done_mark() + rest);
    lemma_marked_line(done_mark(), rest);
    assert(trim_start(done_mark() + rest) == done_mark() + rest) by {
        assert((done_mark() + rest)[0] == '-');
    }
}

/// Completing an entry twice leaves the same lines as completing it once.
pub proof fn lemma_complete_idempotent(lines: Seq<Seq<char>>, id: int)
    requires
        has_entry(lines, id),
    ensures
        has_entry(complete_spec(lines, id), id),
        complete_spec(complete_spec(lines, id), id) == complete_spec(lines, id),
{
    lemma_decode_shape(lines, lines.len() as int);
    let b = decode(lines)[id - 1];
    let once = complete_spec(lines, id);
    if !b.completed {
        let li = b.line_index;
        lemma_line_done(lines[li]);
        assert forall|j: int| 0 <= j < lines.len() implies is_entry_line(#[trigger] once[j])
            == is_entry_line(lines[j]) by {}
        lemma_same_skeleton(once, lines, lines.len() as int);
        lemma_decode_shape(once, once.len() as int);
        assert(decode(once)[id - 1].line_index == li);
        assert(once[li] == line_done(lines[li]));
    }
}

/// A blank line starts no entry and is no note line.
proof fn lemma_blank_line(s: Seq<char>)
    requires
        is_blank(s),
    ensures
        !is_entry_line(s),
        !is_note_line(s),
    decreases s.len(),
{
    lemma_marks();
    if s.len() > 0 {
        assert(is_ws(s[0]));
        assert(is_blank(s.drop_first())) by {
            assert forall|i: int| 0 <= i < s.drop_first().len() implies is_ws(
                #[trigger] s.drop_first()[i],
            ) by {
                assert(s.drop_first()[i] == s[i + 1]);
            }
        }
        lemma_blank_line(s.drop_first());
        assert(trim_start(s) == trim_start(s.drop_first()));
        if s.len() >= 3 {
            assert(is_ws(s[2]));
        }
    }
}

/// The block under an entry: blank and note-like lines up to its end.
proof fn lemma_block_end(lines: Seq<Seq<char>>, i: int)
    requires
        0 <= i <= lines.len(),
    ensures
        i <= block_end(lines, i) <= lines.len(),
        forall|j: int|
            i <= j < block_end(lines, i) ==> is_blank(#[trigger] lines[j]) || is_note_like(
                lines[j],
            ),
        block_end(lines, i) < lines.len() ==> !is_blank(lines[block_end(lines, i)])
            && !is_note_like(lines[block_end(lines, i)]),
    decreases lines.len() - i,
{
    if i < lines.len() && (is_blank(lines[i]) || is_note_like(lines[i])) {
        lemma_block_end(lines, i + 1);
    }
}

/// A line that ends a block is no note line.
proof fn lemma_block_end_not_note(line: Seq<char>)
    requires
        !is_note_like(line),
    ensures
        !is_note_line(line),
{
    lemma_marks();
    reveal_strlit("  ");
    if is_note_line(line) {
        lemma_note_line(line);
        assert(line.subrange(0, 2) =~= "  "@);
        assert(is_note_like(line));
    }
}

/// Lines that agree from `i` up to a line that is no note line give the same notes.
proof fn lemma_notes_agree(a: Seq<Seq<char>>, c: Seq<Seq<char>>, i: int, s: int)
    requires
        0 <= i <= s,
        s <= a.len(),
        s <= c.len(),
        forall|x: int| i <= x < s ==> a[x] == c[x],
        s < a.len() ==> !is_note_line(a[s]),
        s < c.len() ==> !is_note_line(c[s]),
    ensures
        notes_from(a, i) == notes_from(c, i),
    decreases s - i,
{
    if i < s {
        lemma_notes_agree(a, c, i + 1, s);
    }
}

/// Lines that agree before `s`, where neither holds a note line, decode alike up to `n`.
proof fn lemma_decode_agree(a: Seq<Seq<char>>, c: Seq<Seq<char>>, n: int, s: int)
    requires
        0 <= n <= s,
        s <= a.len(),
        s <= c.len(),
        forall|x: int| 0 <= x < s ==> a[x] == c[x],
        s < a.len() ==> !is_note_line(a[s]),
        s < c.len() ==> !is_note_line(c[s]),
    ensures
        decode_upto(a, n) == decode_upto(c, n),
    decreases n,
{
    if n > 0 {
        lemma_decode_agree(a, c, n - 1, s);
        lemma_notes_agree(a, c, n, s);
    }
}

/// Lines that agree with others further down give the same notes there.
proof fn lemma_notes_shift(a: Seq<Seq<char>>, c: Seq<Seq<char>>, off: int, i: int)
    requires
        0 <= i <= a.len(),
        0 <= off,
        a.len() + off == c.len(),
        forall|x: int| i <= x < a.len() ==> a[x] == c[x + off],
    ensures
        notes_from(a, i) == notes_from(c, i + off),
    decreases a.len() - i,
{
    if i < a.len() {
        lemma_notes_shift(a, c, off, i + 1);
    }
}

/// The entries of the first lines are the first entries of more lines.
proof fn lemma_decode_prefix(lines: Seq<Seq<char>>, n: int, m: int)
    requires
        0 <= n <= m <= lines.len(),
    ensures
        decode_upto(lines, n).len() <= decode_upto(lines, m).len(),
        decode_upto(lines, m).take(decode_upto(lines, n).len() as int) == decode_upto(lines, n),
    decreases m - n,
{
    if n < m {
        lemma_decode_prefix(lines, n, m - 1);
        assert(decode_upto(lines, m).take(decode_upto(lines, n).len() as int) =~= decode_upto(
            lines,
            m - 1,
        ).take(decode_upto(lines, n).len() as int));
    } else {
        assert(decode_upto(lines, m).take(decode_upto(lines, n).len() as int) =~= decode_upto(
            lines,
            n,
        ));
    }
}

/// An entry moved up by `d` lines and numbered one lower.
pub open spec fn moved_up(b: BulletView, d: int) -> BulletView {
    BulletView { line_index: b.line_index - d, visible_index: b.visible_index - 1, ..b }
}

/// Deleting entry `id` removes that entry alone: the entries before it decode as before,
/// and each entry after it decodes as before, numbered one lower and moved up by the
/// number of lines removed.
pub proof fn lemma_delete_one(lines: Seq<Seq<char>>, id: int)
    requires
        has_entry(lines, id),
    ensures
        ({
            let li = decode(lines)[id - 1].line_index;
            let kept = delete_spec(lines, li);
            let before = decode(lines);
            let after = decode(kept);
            let d = lines.len() - kept.len();
            &&& after.len() == before.len() - 1
            &&& forall|k: int| 0 <= k < id - 1 ==> #[trigger] after[k] == before[k]
            &&& forall|k: int| id - 1 <= k < after.len() ==> #[trigger] after[k] == moved_up(
                before[k + 1],
                d,
            )
        }),
{
    let l = lines;
    lemma_decode_shape(l, l.len() as int);
    let li = decode(l)[id - 1].line_index;
    let e = block_end(l, li + 1);
    lemma_block_end(l, li + 1);
    let bl = blanks(l.subrange(li + 1, e));
    lemma_blanks(l.subrange(li + 1, e));
    let nb = bl.len() as int;
    let kept = delete_spec(l, li);
    assert(kept =~= l.take(li) + bl + l.skip(e));
    let d = e - li - nb;
    assert(kept.len() == l.len() - d);
    // the entry's own line
    let (done0, rest0) = entry_head(l[li]).unwrap();
    let x = bullet_at(l, li, id, done0, rest0);
    assert(is_entry_line(l[li]));
    // entries before the deleted one
    if e < l.len() {
        lemma_block_end_not_note(l[e]);
    }
    assert(!is_note_line(l[li])) by {
        if is_note_line(l[li]) {
            lemma_note_line(l[li]);
        }
    }
    assert(li < kept.len() ==> !is_note_line(kept[li])) by {
        if li < kept.len() {
            if nb > 0 {
                assert(kept[li] == bl[0]);
                lemma_blank_line(bl[0]);
            } else {
                assert(kept[li] == l[e]);
            }
        }
    }
    lemma_decode_agree(kept, l, li, li);
    let c = decode_upto(l, li).len() as int;
    // the blank lines kept from the block add no entries
    assert forall|j: int| li <= j < li + nb implies !is_entry_line(#[trigger] kept[j]) by {
        assert(kept[j] == bl[j - li]);
        lemma_blank_line(bl[j - li]);
    }
    lemma_decode_no_entries(kept, li, li + nb);
    // the rest of the block adds no entries either
    assert forall|j: int| li + 1 <= j < e implies !is_entry_line(#[trigger] l[j]) by {
        if is_blank(l[j]) {
            lemma_blank_line(l[j]);
        }
    }
    lemma_decode_no_entries(l, li + 1, e);
    assert(decode_upto(l, li + 1) == decode_upto(l, li).push(
        bullet_at(l, li, c + 1, done0, rest0),
    ));
    // the deleted entry is number c + 1
    lemma_decode_prefix(l, li + 1, l.len() as int);
    assert(decode(l)[c] == decode_upto(l, li + 1)[c]);
    assert(c == id - 1) by {
        if c < id - 1 {
            assert(decode(l)[c].line_index < decode(l)[id - 1].line_index);
        } else if c > id - 1 {
            assert(decode(l)[id - 1].line_index < decode(l)[c].line_index);
        }
    }
    // the entries after the block
    lemma_delete_tail(l, kept, li, e, nb, c, (l.len() - e) as int);
    lemma_decode_prefix(l, e, l.len() as int);
    assert(kept.len() == li + nb + (l.len() - e));
    assert(l.len() == e + (l.len() - e));
    let before = decode(l);
    let after = decode(kept);
    assert forall|k: int| 0 <= k < id - 1 implies #[trigger] after[k] == before[k] by {
        assert(before[k] == decode_upto(l, e)[k]);
    }
}

/// The blank lines of a block, all blank and no more than its lines.
proof fn lemma_blanks(s: Seq<Seq<char>>)
    ensures
        blanks(s).len() <= s.len(),
        forall|i: int| 0 <= i < blanks(s).len() ==> is_blank(#[trigger] blanks(s)[i]),
    decreases s.len(),
{
    if s.len() > 0 {
        lemma_blanks(s.drop_last());
    }
}

/// After the block, the kept lines decode like the lines they came from: numbered one lower
/// and moved up.
proof fn lemma_delete_tail(
    l: Seq<Seq<char>>,
    kept: Seq<Seq<char>>,
    li: int,
    e: int,
    nb: int,
    c: int,
    t: int,
)
    requires
        0 <= li < e <= l.len(),
        0 <= nb <= e - li - 1,
        0 <= t <= l.len() - e,
        kept.len() == li + nb + (l.len() - e),
        forall|x: int| e <= x < l.len() ==> #[trigger] l[x] == kept[x - (e - li - nb)],
        decode_upto(kept, li + nb).len() == c,
        decode_upto(l, e).len() == c + 1,
        forall|k: int| 0 <= k < c ==> #[trigger] decode_upto(kept, li + nb)[k] == decode_upto(
            l,
            e,
        )[k],
    ensures
        decode_upto(kept, li + nb + t).len() == decode_upto(l, e + t).len() - 1,
        decode_upto(kept, li + nb + t).len() >= c,
        forall|k: int| 0 <= k < c ==> #[trigger] decode_upto(kept, li + nb + t)[k] == decode_upto(
            l,
            e + t,
        )[k],
        forall|k: int|
            c <= k < decode_upto(kept, li + nb + t).len() ==> #[trigger] decode_upto(
                kept,
                li + nb + t,
            )[k] == moved_up(decode_upto(l, e + t)[k + 1], e - li - nb),
    decreases t,
{
    let d = e - li - nb;
    if t > 0 {
        lemma_delete_tail(l, kept, li, e, nb, c, t - 1);
        let n = li + nb + t;
        let m = e + t;
        assert(kept[n - 1] == l[m - 1]);
        let pk = decode_upto(kept, n - 1);
        let pl = decode_upto(l, m - 1);
        match entry_head(l[m - 1]) {
            Some((done, rest)) => {
                assert forall|x: int| n <= x < kept.len() implies kept[x] == l[x + d] by {
                    assert(l[x + d] == kept[x + d - d]);
                }
                lemma_notes_shift(kept, l, d, n);
                let bk = bullet_at(kept, n - 1, pk.len() + 1 as int, done, rest);
                let bl = bullet_at(l, m - 1, pl.len() + 1 as int, done, rest);
                assert(bk == moved_up(bl, d));
                assert(decode_upto(kept, n) == pk.push(bk));
                assert(decode_upto(l, m) == pl.push(bl));
            },
            None => {},
        }
    } else {
        assert(decode_upto(kept, li + nb + t) == decode_upto(kept, li + nb));
    }
}

/// The number of lines among the first `n` that start an entry.
pub open spec fn entry_count(lines: Seq<Seq<char>>, n: int) -> nat
    decreases n,
{
    if n <= 0 {
        0
    } else {
        entry_count(lines, n - 1) + if is_entry_line(lines[n - 1]) {
            1nat
        } else {
            0nat
        }
    }
}

/// One entry for each line that starts one.
proof fn lemma_decode_len(lines: Seq<Seq<char>>, n: int)
    requires
        0 <= n <= lines.len(),
    ensures
        decode_upto(lines, n).len() == entry_count(lines, n),
    decreases n,
{
    if n > 0 {
        lemma_decode_len(lines, n - 1);
    }
}

/// Every line that starts an entry is the line of a decoded entry.
proof fn lemma_entry_line_decoded(lines: Seq<Seq<char>>, n: int, j: int)
    requires
        0 <= j < n <= lines.len(),
        is_entry_line(lines[j]),
    ensures
        exists|k: int|
            0 <= k < decode_upto(lines, n).len() && (#[trigger] decode_upto(lines, n)[k]).line_index
                == j,
    decreases n,
{
    lemma_decode_shape(lines, n);
    if j < n - 1 {
        lemma_entry_line_decoded(lines, n - 1, j);
        let k = choose|k: int|
            0 <= k < decode_upto(lines, n - 1).len() && (#[trigger] decode_upto(
                lines,
                n - 1,
            )[k]).line_index == j;
        assert(decode_upto(lines, n)[k] == decode_upto(lines, n - 1)[k]);
    } else {
        let k = decode_upto(lines, n - 1).len() as int;
        assert(decode_upto(lines, n)[k].line_index == j);
    }
}

/// Removing a line takes its entry, if it starts one, out of the count.
proof fn lemma_count_remove(lines: Seq<Seq<char>>, p: int, n: int)
    requires
        0 <= p < lines.len(),
        0 <= n < lines.len(),
    ensures
        n <= p ==> entry_count(lines.remove(p), n) == entry_count(lines, n),
        n > p ==> entry_count(lines.remove(p), n) + (if is_entry_line(lines[p]) {
            1int
        } else {
            0int
        }) == entry_count(lines, n + 1),
    decreases n,
{
    let r = lines.remove(p);
    if n > 0 {
        lemma_count_remove(lines, p, n - 1);
        if n - 1 < p {
            assert(r[n - 1] == lines[n - 1]);
        } else {
            assert(r[n - 1] == lines[n]);
            assert(entry_count(lines, n + 1) == entry_count(lines, n) + if is_entry_line(lines[n]) {
                1nat
            } else {
                0nat
            });
            assert(entry_count(lines, p + 1) == entry_count(lines, p) + if is_entry_line(lines[p]) {
                1nat
            } else {
                0nat
            });
        }
    }
}

/// Removing the lines of the open entries, last first, leaves every entry line but
/// theirs: one entry fewer for each, and each remaining line one of the given
/// lines that no open entry starts at.
proof fn lemma_without_open(lines: Seq<Seq<char>>, bs: Seq<BulletView>)
    requires
        forall|a: int, c: int| 0 <= a < c < bs.len() ==> bs[a].line_index < bs[c].line_index,
        forall|k: int|
            0 <= k < bs.len() ==> 0 <= (#[trigger] bs[k]).line_index < lines.len()
                && is_entry_line(lines[bs[k].line_index]),
    ensures
        entry_count(without_open(lines, bs), without_open(lines, bs).len() as int) + open_count(
            bs,
        ) == entry_count(lines, lines.len() as int),
        forall|x: int|
            0 <= x < without_open(lines, bs).len() ==> exists|j: int|
                0 <= j < lines.len() && #[trigger] without_open(lines, bs)[x] == lines[j] && forall|
                    k: int,
                |
                    0 <= k < bs.len() && (#[trigger] bs[k]).line_index == j ==> bs[k].completed,
    decreases bs.len(),
{
    if bs.len() > 0 {
        let last = bs.last();
        let p = last.line_index;
        let rest = bs.drop_last();
        let next = if last.completed {
            lines
        } else {
            lines.remove(p)
        };
        assert forall|k: int| 0 <= k < rest.len() implies 0 <= (#[trigger] rest[k]).line_index
            < next.len() && is_entry_line(next[rest[k].line_index]) by {
            assert(rest[k] == bs[k]);
            assert(bs[k].line_index < p);
        }
        lemma_without_open(next, rest);
        let res = without_open(lines, bs);
        assert(res == without_open(next, rest));
        if !last.completed {
            assert(bs[bs.len() - 1] == last);
            lemma_count_remove(lines, p, lines.len() - 1);
            if lines.len() - 1 <= p {
                assert(entry_count(lines, lines.len() as int) == entry_count(
                    lines,
                    lines.len() - 1,
                ) + 1);
            }
        }
        assert forall|x: int| 0 <= x < res.len() implies exists|j: int|
            0 <= j < lines.len() && #[trigger] res[x] == lines[j] && forall|k: int|
                0 <= k < bs.len() && (#[trigger] bs[k]).line_index == j ==> bs[k].completed by {
            let j2 = choose|j: int|
                0 <= j < next.len() && #[trigger] res[x] == next[j] && forall|k: int|
                    0 <= k < rest.len() && (#[trigger] rest[k]).line_index == j
                        ==> rest[k].completed;
            let j = if last.completed || j2 < p {
                j2
            } else {
                j2 + 1
            };
            assert(res[x] == lines[j]);
            assert forall|k: int| 0 <= k < bs.len() && (#[trigger] bs[k]).line_index == j implies bs[k].completed by {
                if k < rest.len() {
                    assert(rest[k] == bs[k]);
                    assert(bs[k].line_index < bs[bs.len() - 1].line_index);
                } else {
                    assert(bs[k] == last);
                }
            }
        }
    } else {
        assert forall|x: int| 0 <= x < lines.len() implies exists|j: int|
            0 <= j < lines.len() && #[trigger] lines[x] == lines[j] && forall|k: int|
                0 <= k < bs.len() && (#[trigger] bs[k]).line_index == j ==> bs[k].completed by {
            assert(lines[x] == lines[x]);
        }
    }
}

/// Appending the migrated lines gives the destination one more entry per open entry.
proof fn lemma_migrated_count(to: Seq<Seq<char>>, bs: Seq<BulletView>)
    ensures
        decode(to + migrated_all(bs)).len() == decode(to).len() + open_count(bs),
    decreases bs.len(),
{
    if bs.len() > 0 {
        let last = bs.last();
        let first = if last.completed {
            seq![]
        } else {
            migrated_lines(last)
        };
        assert(to + migrated_all(bs) =~= (to + first) + migrated_all(bs.drop_last()));
        lemma_migrated_count(to + first, bs.drop_last());
        if !last.completed {
            let rest = meeting_bracket(last.meeting_time, last.meeting_duration_min)
                + priority_prefix(last.priority) + last.text + tag_suffix(last.tags);
            assert(entry_line(
                open_mark(),
                meeting_bracket(last.meeting_time, last.meeting_duration_min),
                last.priority,
                last.text,
                last.tags,
            ) =~= open_mark() + rest);
            assert(note_lines(seq![]) =~= Seq::<Seq<char>>::empty());
            assert(migrated_lines(last) =~= seq![open_mark() + rest] + note_lines(seq![]));
            lemma_append_entry(to, rest, seq![]);
        } else {
            assert(to + first =~= to);
        }
    } else {
        assert(to + migrated_all(bs) =~= to);
    }
}

/// Migrating the open entries moves exactly those: the destination gains one entry
/// for each, and the source keeps only done entries, all those it had.
pub proof fn lemma_migrate_open_moves(from_lines: Seq<Seq<char>>, to_lines: Seq<Seq<char>>)
    ensures
        ({
            let bs = decode(from_lines);
            let src = decode(without_open(from_lines, bs));
            &&& decode(to_lines + migrated_all(bs)).len() == decode(to_lines).len() + open_count(bs)
            &&& src.len() + open_count(bs) == bs.len()
            &&& forall|k: int| 0 <= k < src.len() ==> (#[trigger] src[k]).completed
        }),
{
    let l = from_lines;
    let bs = decode(l);
    lemma_migrated_count(to_lines, bs);
    lemma_decode_shape(l, l.len() as int);
    assert forall|k: int| 0 <= k < bs.len() implies 0 <= (#[trigger] bs[k]).line_index < l.len()
        && is_entry_line(l[bs[k].line_index]) by {
        assert(decode_upto(l, l.len() as int)[k] == bs[k]);
    }
    lemma_without_open(l, bs);
    let r = without_open(l, bs);
    lemma_decode_len(l, l.len() as int);
    lemma_decode_len(r, r.len() as int);
    lemma_decode_shape(r, r.len() as int);
    let src = decode(r);
    assert forall|k: int| 0 <= k < src.len() implies (#[trigger] src[k]).completed by {
        assert(decode_upto(r, r.len() as int)[k] == src[k]);
        let x = src[k].line_index;
        let j = choose|j: int|
            0 <= j < l.len() && #[trigger] r[x] == l[j] && forall|c: int|
                0 <= c < bs.len() && (#[trigger] bs[c]).line_index == j ==> bs[c].completed;
        assert(r[x] == l[j]);
        lemma_entry_line_decoded(l, l.len() as int, j);
        let c = choose|c: int|
            0 <= c < decode_upto(l, l.len() as int).len() && (#[trigger] decode_upto(
                l,
                l.len() as int,
            )[c]).line_index == j;
        assert(bs[c].line_index == j);
        assert(bs[c].completed);
        assert(decode_upto(l, l.len() as int)[c] == bs[c]);
    }
}

/// A word with no whitespace in it is a single word.
proof fn lemma_words_single(w: Seq<char>)
    requires
        w.len() > 0,
        forall|i: int| 0 <= i < w.len() ==> !is_ws(#[trigger] w[i]),
    ensures
        words(w) == seq![w],
    decreases w.len(),
{
    let p = w.drop_last();
    assert(!is_ws(w[w.len() - 1]));
    if p.len() > 0 {
        assert forall|i: int| 0 <= i < p.len() implies !is_ws(#[trigger] p[i]) by {
            assert(p[i] == w[i]);
        }
        lemma_words_single(p);
        assert(p.last() == w[w.len() - 2]);
        assert(!is_ws(w[w.len() - 2]));
        assert(p.push(w.last()) =~= w);
        assert(words(w) == words(p).update(0, p.push(w.last())));
        assert(words(w) =~= seq![w]);
    } else {
        assert(words(p) == Seq::<Seq<char>>::empty());
        assert(w =~= seq![w.last()]);
        assert(words(w) =~= seq![w]);
    }
}

/// A space and a word after some text add that word after the text's words.
proof fn lemma_words_append(x: Seq<char>, w: Seq<char>)
    requires
        w.len() > 0,
        forall|i: int| 0 <= i < w.len() ==> !is_ws(#[trigger] w[i]),
    ensures
        words(x + seq![' '] + w) == words(x) + seq![w],
    decreases w.len(),
{
    let s = x + seq![' '] + w;
    let p = w.drop_last();
    assert(is_ws(' '));
    assert(s.last() == w.last());
    if p.len() > 0 {
        assert forall|i: int| 0 <= i < p.len() implies !is_ws(#[trigger] p[i]) by {
            assert(p[i] == w[i]);
        }
        lemma_words_append(x, p);
        assert(s.drop_last() =~= x + seq![' '] + p);
        assert(s.drop_last().last() == w[w.len() - 2]);
        assert(p.push(w.last()) =~= w);
        assert(words(s) =~= words(x) + seq![w]);
    } else {
        assert(s.drop_last() =~= x + seq![' ']);
        assert((x + seq![' ']).drop_last() =~= x);
        assert((x + seq![' ']).last() == ' ');
        assert(words(x + seq![' ']) == words(x));
        assert(!is_ws(w[0]));
        assert(w =~= seq![w.last()]);
        assert(words(s) =~= words(x) + seq![w]);
    }
}

/// The decimal digits of a number are digits, read back as the number.
proof fn lemma_decimal(n: nat)
    ensures
        decimal(n).len() > 0,
        forall|i: int| 0 <= i < decimal(n).len() ==> is_digit(#[trigger] decimal(n)[i]),
        digits_value(decimal(n)) == n,
    decreases n,
{
    if n < 10 {
        lemma_digit_char(n);
        assert(decimal(n) == seq![digit_char(n)]);
        assert(decimal(n).drop_last() =~= Seq::<char>::empty());
        assert(digits_value(decimal(n).drop_last()) == 0);
    } else {
        lemma_decimal(n / 10);
        lemma_digit_char(n % 10);
        let s = decimal(n);
        assert(s == decimal(n / 10).push(digit_char(n % 10)));
        assert(s.drop_last() =~= decimal(n / 10));
        assert forall|i: int| 0 <= i < s.len() implies is_digit(#[trigger] s[i]) by {
            if i < s.len() - 1 {
                assert(s[i] == decimal(n / 10)[i]);
            }
        }
        assert((n / 10) * 10 + n % 10 == n);
    }
}

/// A digit is neither whitespace, nor a colon, nor a closing bracket.
proof fn lemma_digit_not_special(c: char)
    requires
        is_digit(c),
    ensures
        !is_ws(c),
        c != ']',
        c != '+',
{
}

/// The first occurrence of a character in a text that has none.
proof fn lemma_first_index_none(s: Seq<char>, c: char)
    requires
        forall|i: int| 0 <= i < s.len() ==> s[i] != c,
    ensures
        first_index(s, c) is None,
    decreases s.len(),
{
    if s.len() > 0 {
        lemma_first_index_none(s.drop_last(), c);
    }
}

/// The first occurrence of a character is where it first stands.
proof fn lemma_first_index_at(s: Seq<char>, c: char, k: int)
    requires
        0 <= k < s.len(),
        s[k] == c,
        forall|i: int| 0 <= i < k ==> s[i] != c,
    ensures
        first_index(s, c) == Some(k),
    decreases s.len(),
{
    if k < s.len() - 1 {
        lemma_first_index_at(s.drop_last(), c, k);
    } else {
        lemma_first_index_none(s.drop_last(), c);
    }
}

/// A meeting bracket that the library writes reads back as its time and duration,
/// with the text after it.
pub proof fn lemma_bracket_round_trip(t: ClockTime, dur: Option<u32>, rest: Seq<char>)
    requires
        t.valid(),
    ensures
        meeting_split(meeting_bracket(Some(t), dur) + rest) == (Some(t), dur, trim_start(rest)),
{
    reveal_strlit("[mtg ");
    reveal_strlit("] ");
    let hh = hhmm_text(t);
    let h = t.hour as nat;
    let m = t.minute as nat;
    lemma_hhmm_round_trip(t);
    lemma_digit_char(h / 10);
    lemma_digit_char(h % 10);
    lemma_digit_char(m / 10);
    lemma_digit_char(m % 10);
    assert(forall|i: int| 0 <= i < hh.len() ==> (#[trigger] hh[i] == ':' || is_digit(hh[i])));
    let dd: Seq<char> = match dur {
        Some(d) => seq![' '] + decimal(d as nat),
        None => seq![],
    };
    let s = meeting_bracket(Some(t), dur) + rest;
    assert(s =~= meeting_mark() + (hh + dd + (seq![']', ' '] + rest)));
    assert(meeting_mark().is_prefix_of(s)) by {
        assert(s.subrange(0, meeting_mark().len() as int) =~= meeting_mark());
    }
    let body = s.skip(meeting_mark().len() as int);
    assert(body =~= hh + dd + (seq![']', ' '] + rest));
    let k = (hh.len() + dd.len()) as int;
    match dur {
        Some(d) => {
            lemma_decimal(d as nat);
        },
        None => {},
    }
    assert forall|i: int| 0 <= i < k implies body[i] != ']' by {
        if i < hh.len() {
            assert(body[i] == hh[i]);
            if hh[i] != ':' {
                lemma_digit_not_special(hh[i]);
            }
        } else if i > hh.len() {
            let dec = decimal(dur->0 as nat);
            assert(body[i] == dec[i - hh.len() - 1]);
            lemma_digit_not_special(dec[i - hh.len() - 1]);
        }
    }
    lemma_first_index_at(body, ']', k);
    assert(body.take(k) =~= hh + dd);
    assert forall|i: int| 0 <= i < hh.len() implies !is_ws(#[trigger] hh[i]) by {
        if hh[i] != ':' {
            lemma_digit_not_special(hh[i]);
        }
    }
    lemma_words_single(hh);
    match dur {
        Some(d) => {
            let dec = decimal(d as nat);
            assert forall|i: int| 0 <= i < dec.len() implies !is_ws(#[trigger] dec[i]) by {
                lemma_digit_not_special(dec[i]);
            }
            lemma_words_append(hh, dec);
            assert(hh + dd =~= hh + seq![' '] + dec);
            assert(unsigned_part(dec) == dec) by {
                lemma_digit_not_special(dec[0]);
            }
            assert(parsed_u32(dec) == Some(d));
        },
        None => {
            assert(hh + dd =~= hh);
        },
    }
    assert(body.skip(k + 1) =~= seq![' '] + rest);
    assert((seq![' '] + rest).drop_first() =~= rest);
    assert(trim_start(seq![' '] + rest) == trim_start(rest));
}

/// A migrated meeting keeps its start time and duration: the line written for it
/// starts an open entry whose bracket reads back as both.
pub proof fn lemma_migrated_meeting(b: BulletView)
    requires
        meeting_ok(b.meeting_time, b.meeting_duration_min),
        b.meeting_time is Some,
    ensures
        ({
            let line = migrated_lines(b)[0];
            let tail = priority_prefix(b.priority) + b.text + tag_suffix(b.tags);
            &&& entry_head(line) matches Some((done, rest)) && !done
                && meeting_split(rest) == (b.meeting_time, b.meeting_duration_min, trim_start(tail))
        }),
{
    let t = b.meeting_time->0;
    let tail = priority_prefix(b.priority) + b.text + tag_suffix(b.tags);
    let rest = meeting_bracket(b.meeting_time, b.meeting_duration_min) + tail;
    assert(migrated_lines(b)[0] =~= open_mark() + rest);
    lemma_marked_line(open_mark(), rest);
    lemma_bracket_round_trip(t, b.meeting_duration_min, tail);
}

} // verus!
