//! Importing a plain-text journal: day-divider lines such as
//! `Monday 7/20/2026:` open dated entries, blank or dashed lines split an
//! entry into blocks (one card each), and whatever precedes the first divider
//! is an undated reference preamble.

use vstd::prelude::*;
use crate::text::{
    all_digits, chars_of, concat_chars, decimal, is_whitespace, is_ws, parse_i32, parse_i32_in,
    parse_unsigned, parse_unsigned_in, push_decimal, string_of, sub_chars, trim, trim_chars,
    trim_end, trim_end_index, lines, split_lines, split_char, split_chars, split_words,
    trim_end_char, trim_end_char_exec, words,
};

verus! {

/// A separator line: at least five characters, all dashes.
pub open spec fn spec_is_dash_line(s: Seq<char>) -> bool {
    s.len() >= 5 && forall|i: int| 0 <= i < s.len() ==> s[i] == '-'
}

fn is_dash_chars(v: &Vec<char>) -> (r: bool)
    ensures
        r == spec_is_dash_line(v@),
{
    if v.len() < 5 {
        return false;
    }
    let mut i: usize = 0;
    while i < v.len()
        invariant
            i <= v@.len(),
            forall|k: int| 0 <= k < i ==> v@[k] == '-',
        decreases v@.len() - i,
    {
        if v[i] != '-' {
            return false;
        }
        i += 1;
    }
    true
}

/// Whether a (trimmed) line is a block separator made of dashes.
pub fn is_dash_line(s: &str) -> (r: bool)
    ensures
        r == spec_is_dash_line(s@),
{
    is_dash_chars(&chars_of(s))
}

/// The English name of month `m`, or `Month m` outside 1..=12.
pub open spec fn spec_month_name(m: nat) -> Seq<char> {
    if m == 1 {
        "January"@
    } else if m == 2 {
        "February"@
    } else if m == 3 {
        "March"@
    } else if m == 4 {
        "April"@
    } else if m == 5 {
        "May"@
    } else if m == 6 {
        "June"@
    } else if m == 7 {
        "July"@
    } else if m == 8 {
        "August"@
    } else if m == 9 {
        "September"@
    } else if m == 10 {
        "October"@
    } else if m == 11 {
        "November"@
    } else if m == 12 {
        "December"@
    } else {
        "Month "@ + decimal(m)
    }
}

/// The name a month node is given.
pub fn month_name(m: u32) -> (r: String)
    ensures
        r@ == spec_month_name(m as nat),
{
    match m {
        1 => "January".to_owned(),
        2 => "February".to_owned(),
        3 => "March".to_owned(),
        4 => "April".to_owned(),
        5 => "May".to_owned(),
        6 => "June".to_owned(),
        7 => "July".to_owned(),
        8 => "August".to_owned(),
        9 => "September".to_owned(),
        10 => "October".to_owned(),
        11 => "November".to_owned(),
        12 => "December".to_owned(),
        _ => {
            let mut out = chars_of("Month ");
            push_decimal(&mut out, m as u64);
            string_of(&out)
        },
    }
}

/// `s` cut to `max` characters with an ellipsis when longer.
pub open spec fn spec_truncate(s: Seq<char>, max: nat) -> Seq<char> {
    if s.len() <= max {
        s
    } else {
        s.take(max as int).push('…')
    }
}

/// Char-safe truncation with an ellipsis.
pub fn truncate(s: &str, max: usize) -> (r: String)
    ensures
        r@ == spec_truncate(s@, max as nat),
{
    let v = chars_of(s);
    if v.len() <= max {
        s.to_owned()
    } else {
        let mut out = sub_chars(&v, 0, max);
        out.push('…');
        string_of(&out)
    }
}

/// Whether a line ends the current block: blank, or a dash separator.
pub open spec fn is_break_line(l: Seq<char>) -> bool {
    trim(l).len() == 0 || spec_is_dash_line(trim(l))
}

/// The blocks of `ls`, given the block `cur` already under way.
pub open spec fn blocks_from(ls: Seq<Seq<char>>, cur: Seq<Seq<char>>) -> Seq<Seq<Seq<char>>>
    decreases ls.len(),
{
    if ls.len() == 0 {
        if cur.len() > 0 {
            seq![cur]
        } else {
            seq![]
        }
    } else if is_break_line(ls[0]) {
        (if cur.len() > 0 {
            seq![cur]
        } else {
            seq![]
        }) + blocks_from(ls.drop_first(), seq![])
    } else {
        blocks_from(ls.drop_first(), cur.push(trim_end(ls[0])))
    }
}

/// The blocks of a run of lines: maximal runs of non-blank, non-dash lines,
/// each line with its trailing whitespace removed.
pub open spec fn spec_split_blocks(ls: Seq<Seq<char>>) -> Seq<Seq<Seq<char>>> {
    blocks_from(ls, seq![])
}

fn push_block(blocks: &mut Vec<Vec<Vec<char>>>, cur: Vec<Vec<char>>)
    ensures
        final(blocks).deep_view() == old(blocks).deep_view().push(cur.deep_view()),
{
    blocks.push(cur);
    assert(blocks.deep_view() =~= old(blocks).deep_view().push(cur.deep_view()));
}

/// Split a run of lines into blocks separated by blank or dash-only lines.
pub fn split_block_chars(ls: &Vec<Vec<char>>) -> (r: Vec<Vec<Vec<char>>>)
    ensures
        r.deep_view() == spec_split_blocks(ls.deep_view()),
{
    let ghost all = ls.deep_view();
    let mut blocks: Vec<Vec<Vec<char>>> = Vec::new();
    let mut cur: Vec<Vec<char>> = Vec::new();
    let mut i: usize = 0;
    assert(all.skip(0) =~= all);
    assert(cur.deep_view() =~= Seq::<Seq<char>>::empty());
    while i < ls.len()
        invariant
            i <= ls@.len(),
            all == ls.deep_view(),
            blocks.deep_view() + blocks_from(all.skip(i as int), cur.deep_view())
                == spec_split_blocks(all),
        decreases ls@.len() - i,
    {
        let line = &ls[i];
        assert(all.skip(i as int)[0] == line@);
        assert(all.skip(i as int).drop_first() =~= all.skip(i + 1));
        let t = trim_chars(line);
        let ghost before = blocks.deep_view();
        let ghost cv = cur.deep_view();
        if t.len() == 0 || is_dash_chars(&t) {
            if cur.len() > 0 {
                let done = cur;
                push_block(&mut blocks, done);
                assert(blocks.deep_view() + blocks_from(all.skip(i + 1), seq![]) =~= before
                    + blocks_from(all.skip(i as int), cv));
            } else {
                assert(cv =~= Seq::<Seq<char>>::empty());
                assert(blocks.deep_view() + blocks_from(all.skip(i + 1), seq![]) =~= before
                    + blocks_from(all.skip(i as int), cv));
            }
            cur = Vec::new();
            assert(cur.deep_view() =~= Seq::<Seq<char>>::empty());
        } else {
            let j = trim_end_index(line, 0, line.len());
            let kept = sub_chars(line, 0, j);
            assert(line@.subrange(0, line@.len() as int) =~= line@);
            assert(kept@ =~= trim_end(line@));
            cur.push(kept);
            assert(kept.deep_view() =~= kept@);
            assert(cur.deep_view() =~= cv.push(kept@));
        }
        i += 1;
    }
    assert(all.skip(i as int) =~= Seq::<Seq<char>>::empty());
    if cur.len() > 0 {
        let ghost before = blocks.deep_view();
        let ghost cv = cur.deep_view();
        push_block(&mut blocks, cur);
        assert(blocks.deep_view() =~= before + blocks_from(all.skip(i as int), cv));
    } else {
        assert(blocks.deep_view() =~= blocks.deep_view() + blocks_from(
            all.skip(i as int),
            cur.deep_view(),
        ));
    }
    blocks
}

/// Split lines into blocks separated by blank or dash-only lines.
pub fn split_blocks(lines: &Vec<String>) -> (r: Vec<Vec<String>>)
    ensures
        r.deep_view() == spec_split_blocks(lines.deep_view()),
{
    let ls = crate::text::chars_of_all(lines);
    let bs = split_block_chars(&ls);
    let mut out: Vec<Vec<String>> = Vec::new();
    let mut i: usize = 0;
    while i < bs.len()
        invariant
            i <= bs@.len(),
            out.deep_view() == bs.deep_view().take(i as int),
        decreases bs@.len() - i,
    {
        let b = crate::text::strings_of_all(&bs[i]);
        let ghost before = out.deep_view();
        out.push(b);
        assert(out.deep_view() =~= before.push(b.deep_view()));
        assert(bs.deep_view()[i as int] == bs@[i as int].deep_view());
        assert(bs.deep_view().take(i + 1) =~= bs.deep_view().take(i as int).push(
            bs@[i as int].deep_view(),
        ));
        i += 1;
    }
    assert(bs.deep_view().take(i as int) =~= bs.deep_view());
    out
}


/// The `(month, day, year)` a single token names: after dropping trailing
/// colons it must be `M/D/YYYY` with each part a number, month 1..=12,
/// day 1..=31 and year after 1900.
pub open spec fn date_of_token(tok: Seq<char>) -> Option<(nat, nat, int)> {
    let parts = split_char(trim_end_char(tok, ':'), '/');
    if parts.len() == 3 {
        match (
            parse_unsigned(parts[0], u32::MAX as nat),
            parse_unsigned(parts[1], u32::MAX as nat),
            parse_i32(parts[2]),
        ) {
            (Some(m), Some(d), Some(y)) => if 1 <= m <= 12 && 1 <= d <= 31 && y > 1900 {
                Some((m, d, y))
            } else {
                None
            },
            _ => None,
        }
    } else {
        None
    }
}

/// The date of the first token that names one.
pub open spec fn first_date(ws: Seq<Seq<char>>) -> Option<(nat, nat, int)>
    decreases ws.len(),
{
    if ws.len() == 0 {
        None
    } else {
        match date_of_token(ws[0]) {
            Some(x) => Some(x),
            None => first_date(ws.drop_first()),
        }
    }
}

/// The first `M/D/YYYY` token in `s`, as `(month, day, year)`.
pub open spec fn spec_parse_date(s: Seq<char>) -> Option<(nat, nat, int)> {
    first_date(words(s))
}

fn date_of_token_exec(tok: &Vec<char>) -> (r: Option<(u32, u32, i32)>)
    ensures
        match r {
            Some((m, d, y)) => date_of_token(tok@) == Some((m as nat, d as nat, y as int)),
            None => date_of_token(tok@) is None,
        },
{
    let t = trim_end_char_exec(tok, ':');
    let parts = split_chars(&t, '/');
    if parts.len() != 3 {
        return None;
    }
    let ghost ps = parts.deep_view();
    assert(ps[0] == parts@[0]@ && ps[1] == parts@[1]@ && ps[2] == parts@[2]@);
    let p0 = &parts[0];
    let p1 = &parts[1];
    let p2 = &parts[2];
    assert(p0@.subrange(0, p0@.len() as int) =~= p0@);
    assert(p1@.subrange(0, p1@.len() as int) =~= p1@);
    assert(p2@.subrange(0, p2@.len() as int) =~= p2@);
    let m = parse_unsigned_in(p0, 0, p0.len(), 0xffff_ffff);
    let d = parse_unsigned_in(p1, 0, p1.len(), 0xffff_ffff);
    let y = parse_i32_in(p2, 0, p2.len());
    match (m, d, y) {
        (Some(m), Some(d), Some(y)) => {
            if 1 <= m && m <= 12 && 1 <= d && d <= 31 && y > 1900 {
                Some((m as u32, d as u32, y))
            } else {
                None
            }
        },
        _ => None,
    }
}

fn first_date_exec(v: &Vec<char>) -> (r: Option<(u32, u32, i32)>)
    ensures
        match r {
            Some((m, d, y)) => spec_parse_date(v@) == Some((m as nat, d as nat, y as int)),
            None => spec_parse_date(v@) is None,
        },
{
    let ws = split_words(v);
    let ghost all = ws.deep_view();
    let mut i: usize = 0;
    assert(all.skip(0) =~= all);
    while i < ws.len()
        invariant
            i <= ws@.len(),
            all == ws.deep_view(),
            all.len() == ws@.len(),
            first_date(all.skip(i as int)) == spec_parse_date(v@),
        decreases ws@.len() - i,
    {
        assert(all[i as int] == ws@[i as int]@);
        assert(all.skip(i as int)[0] == all[i as int]);
        let r = date_of_token_exec(&ws[i]);
        if r.is_some() {
            return r;
        }
        assert(all.skip(i as int).drop_first() =~= all.skip(i + 1));
        i += 1;
    }
    assert(all.skip(i as int) =~= Seq::<Seq<char>>::empty());
    None
}

/// First `M/D/YYYY` token in the string → `(month, day, year)`.
pub fn parse_date(s: &str) -> (r: Option<(u32, u32, i32)>)
    ensures
        match r {
            Some((m, d, y)) => spec_parse_date(s@) == Some((m as nat, d as nat, y as int)),
            None => spec_parse_date(s@) is None,
        },
{
    first_date_exec(&chars_of(s))
}

/// ASCII lower case; other characters unchanged.
pub open spec fn ascii_lower(c: char) -> char {
    if 'A' <= c && c <= 'Z' {
        (((c as u32) + 32) as u8) as char
    } else {
        c
    }
}

pub(crate) fn ascii_lower_exec(c: char) -> (r: char)
    ensures
        r == ascii_lower(c),
{
    if 'A' <= c && c <= 'Z' {
        ((c as u32 + 32) as u8) as char
    } else {
        c
    }
}

/// Whether the first three letters of `w`, lower-cased, abbreviate a weekday.
///
/// `str::to_lowercase` agrees with ASCII lower-casing here: the only
/// characters outside ASCII that lower-case to an ASCII letter give `k`, which
/// no abbreviation uses, and the only one that lower-cases to several
/// characters adds a combining mark, which none contains.
pub open spec fn is_weekday_prefix(w: Seq<char>) -> bool {
    w.len() >= 3 && {
        let a = ascii_lower(w[0]);
        let b = ascii_lower(w[1]);
        let c = ascii_lower(w[2]);
        ||| a == 'm' && b == 'o' && c == 'n'
        ||| a == 't' && b == 'u' && c == 'e'
        ||| a == 'w' && b == 'e' && c == 'd'
        ||| a == 't' && b == 'h' && c == 'u'
        ||| a == 'f' && b == 'r' && c == 'i'
        ||| a == 's' && b == 'a' && c == 't'
        ||| a == 's' && b == 'u' && c == 'n'
    }
}

/// A day divider: the trimmed line starts with a weekday (typos tolerated via
/// the 3-letter prefix) and contains an `M/D/YYYY` date.
pub open spec fn spec_is_day_divider(line: Seq<char>) -> bool {
    let t = trim(line);
    let ws = words(t);
    ws.len() > 0 && is_weekday_prefix(ws[0]) && spec_parse_date(t) is Some
}

/// Whether a line opens a dated entry.
pub fn is_day_divider(line: &str) -> (r: bool)
    ensures
        r == spec_is_day_divider(line@),
{
    is_day_divider_chars(&chars_of(line))
}

fn is_day_divider_chars(line: &Vec<char>) -> (r: bool)
    ensures
        r == spec_is_day_divider(line@),
{
    let t = trim_chars(line);
    let ws = split_words(&t);
    if ws.len() == 0 {
        return false;
    }
    let first = &ws[0];
    assert(ws.deep_view()[0] == first@);
    if first.len() < 3 {
        return false;
    }
    let a = ascii_lower_exec(first[0]);
    let b = ascii_lower_exec(first[1]);
    let c = ascii_lower_exec(first[2]);
    let weekday = (a == 'm' && b == 'o' && c == 'n') || (a == 't' && b == 'u' && c == 'e') || (a
        == 'w' && b == 'e' && c == 'd') || (a == 't' && b == 'h' && c == 'u') || (a == 'f' && b
        == 'r' && c == 'i') || (a == 's' && b == 'a' && c == 't') || (a == 's' && b == 'u' && c
        == 'n');
    weekday && first_date_exec(&t).is_some()
}


/// A dated entry as the spec sees it: year, month, day, title, blocks.
pub type DayView = (int, nat, nat, Seq<char>, Seq<Seq<Seq<char>>>);

/// One dated journal entry: its date, the divider line as title, and its
/// blocks (one card each).
pub struct Day {
    pub year: i32,
    pub month: u32,
    pub day: u32,
    pub title: String,
    pub blocks: Vec<Vec<String>>,
}

/// The spec view of a `Day`.
pub open spec fn day_view(d: Day) -> DayView {
    (d.year as int, d.month as nat, d.day as nat, d.title@, d.blocks.deep_view())
}

/// What the import produces: the undated preamble's blocks, and the dated
/// entries newest first.
pub struct JournalPlan {
    pub reference: Vec<Vec<String>>,
    pub days: Vec<Day>,
}

/// Positions, in order, of the day-divider lines among the first `n`.
pub open spec fn divider_positions(ls: Seq<Seq<char>>, n: int) -> Seq<int>
    decreases n,
{
    if n <= 0 {
        seq![]
    } else {
        let p = divider_positions(ls, n - 1);
        if spec_is_day_divider(ls[n - 1]) {
            p.push(n - 1)
        } else {
            p
        }
    }
}

/// Positions of all day-divider lines.
pub open spec fn dividers(ls: Seq<Seq<char>>) -> Seq<int> {
    divider_positions(ls, ls.len() as int)
}

/// The entry opened by the `k`-th divider, which runs to the next divider or
/// the end; `None` if its header names no date.
pub open spec fn entry_at(ls: Seq<Seq<char>>, k: int) -> Option<DayView> {
    let ds = dividers(ls);
    let start = ds[k];
    let end = if k + 1 < ds.len() {
        ds[k + 1]
    } else {
        ls.len() as int
    };
    let header = trim(ls[start]);
    match spec_parse_date(header) {
        Some((m, d, y)) => Some(
            (
                y,
                m,
                d,
                trim(trim_end_char(header, ':')),
                spec_split_blocks(ls.subrange(start + 1, end)),
            ),
        ),
        None => None,
    }
}

/// The entries opened by the first `n` dividers, in file order.
pub open spec fn entries_upto(ls: Seq<Seq<char>>, n: int) -> Seq<DayView>
    decreases n,
{
    if n <= 0 {
        seq![]
    } else {
        let e = entries_upto(ls, n - 1);
        match entry_at(ls, n - 1) {
            Some(x) => e.push(x),
            None => e,
        }
    }
}

/// Whether entry `a` is dated strictly before entry `b`.
pub open spec fn earlier(a: DayView, b: DayView) -> bool {
    a.0 < b.0 || (a.0 == b.0 && (a.1 < b.1 || (a.1 == b.1 && a.2 < b.2)))
}

/// `x` placed into the newest-first `t` after every entry not older than it.
pub open spec fn insert_desc(t: Seq<DayView>, x: DayView) -> Seq<DayView>
    decreases t.len(),
{
    if t.len() == 0 {
        seq![x]
    } else if !earlier(t[0], x) {
        seq![t[0]] + insert_desc(t.drop_first(), x)
    } else {
        seq![x] + t
    }
}

/// `s` sorted newest first; entries of the same date keep their order.
pub open spec fn sort_newest_first(s: Seq<DayView>) -> Seq<DayView>
    decreases s.len(),
{
    if s.len() == 0 {
        seq![]
    } else {
        insert_desc(sort_newest_first(s.drop_last()), s.last())
    }
}

/// The preamble: the lines before the first divider.
pub open spec fn preamble_end(ls: Seq<Seq<char>>) -> int {
    if dividers(ls).len() > 0 {
        dividers(ls)[0]
    } else {
        ls.len() as int
    }
}

proof fn lemma_divider_positions(ls: Seq<Seq<char>>, n: int)
    requires
        0 <= n <= ls.len(),
    ensures
        forall|k: int|
            0 <= k < divider_positions(ls, n).len() ==> 0 <= #[trigger] divider_positions(
                ls,
                n,
            )[k] < n,
        forall|a: int, b: int|
            0 <= a < b < divider_positions(ls, n).len() ==> #[trigger] divider_positions(ls, n)[a]
                < #[trigger] divider_positions(ls, n)[b],
    decreases n,
{
    if n > 0 {
        lemma_divider_positions(ls, n - 1);
        let p = divider_positions(ls, n - 1);
        if spec_is_day_divider(ls[n - 1]) {
            let q = divider_positions(ls, n);
            assert(q == p.push(n - 1));
            assert forall|k: int| 0 <= k < q.len() implies 0 <= #[trigger] q[k] < n by {
                if k < p.len() {
                    assert(q[k] == p[k]);
                }
            }
            assert forall|a: int, b: int| 0 <= a < b < q.len() implies #[trigger] q[a]
                < #[trigger] q[b] by {
                assert(q[a] == p[a]);
                if b < p.len() {
                    assert(q[b] == p[b]);
                }
            }
        }
    }
}

pub proof fn lemma_insert_desc(t: Seq<DayView>, p: int, x: DayView)
    requires
        0 <= p <= t.len(),
        forall|j: int| 0 <= j < p ==> !earlier(#[trigger] t[j], x),
        p < t.len() ==> earlier(t[p], x),
    ensures
        insert_desc(t, x) == t.insert(p, x),
    decreases t.len(),
{
    if t.len() == 0 {
        assert(t.insert(p, x) =~= seq![x]);
    } else if p == 0 {
        assert(t.insert(p, x) =~= seq![x] + t);
    } else {
        assert forall|j: int| 0 <= j < p - 1 implies !earlier(#[trigger] t.drop_first()[j], x) by {
            assert(t.drop_first()[j] == t[j + 1]);
        }
        lemma_insert_desc(t.drop_first(), p - 1, x);
        assert(t.insert(p, x) =~= seq![t[0]] + t.drop_first().insert(p - 1, x));
    }
}

fn earlier_exec(a: &Day, b: &Day) -> (r: bool)
    ensures
        r == earlier(day_view(*a), day_view(*b)),
{
    a.year < b.year || (a.year == b.year && (a.month < b.month || (a.month == b.month && a.day
        < b.day)))
}

fn blocks_of(ls: &Vec<Vec<char>>, a: usize, b: usize) -> (r: Vec<Vec<String>>)
    requires
        a <= b <= ls@.len(),
    ensures
        r.deep_view() == spec_split_blocks(ls.deep_view().subrange(a as int, b as int)),
{
    let mut part: Vec<Vec<char>> = Vec::new();
    let mut i: usize = a;
    while i < b
        invariant
            a <= i <= b <= ls@.len(),
            part.deep_view() == ls.deep_view().subrange(a as int, i as int),
        decreases b - i,
    {
        let x = sub_chars(&ls[i], 0, ls[i].len());
        assert(x@ =~= ls@[i as int]@);
        let ghost before = part.deep_view();
        part.push(x);
        assert(x.deep_view() =~= x@);
        assert(part.deep_view() =~= before.push(x@));
        assert(ls.deep_view()[i as int] == ls@[i as int]@);
        assert(ls.deep_view().subrange(a as int, i + 1) =~= ls.deep_view().subrange(
            a as int,
            i as int,
        ).push(ls@[i as int]@));
        i += 1;
    }
    let bs = split_block_chars(&part);
    let mut out: Vec<Vec<String>> = Vec::new();
    let mut k: usize = 0;
    while k < bs.len()
        invariant
            k <= bs@.len(),
            out.deep_view() == bs.deep_view().take(k as int),
        decreases bs@.len() - k,
    {
        let x = crate::text::strings_of_all(&bs[k]);
        let ghost before = out.deep_view();
        out.push(x);
        assert(out.deep_view() =~= before.push(x.deep_view()));
        assert(bs.deep_view()[k as int] == bs@[k as int].deep_view());
        assert(bs.deep_view().take(k + 1) =~= bs.deep_view().take(k as int).push(
            bs@[k as int].deep_view(),
        ));
        k += 1;
    }
    assert(bs.deep_view().take(k as int) =~= bs.deep_view());
    out
}

/// Turn a plain-text journal into its reference preamble and its dated
/// entries, newest first (entries of the same date keep file order).
pub fn plan_journal(text: &str) -> (r: JournalPlan)
    ensures
        r.reference.deep_view() == spec_split_blocks(
            lines(text@).take(preamble_end(lines(text@))),
        ),
        r.days@.map_values(|d: Day| day_view(d)) == sort_newest_first(
            entries_upto(lines(text@), dividers(lines(text@)).len() as int),
        ),
{
    let ls = split_lines(&chars_of(text));
    let ghost all = ls.deep_view();
    assert(all == lines(text@));
    // Locate every day-divider line.
    let mut divs: Vec<usize> = Vec::new();
    let mut i: usize = 0;
    while i < ls.len()
        invariant
            i <= ls@.len(),
            all == ls.deep_view(),
            divs@.len() == divider_positions(all, i as int).len(),
            forall|k: int|
                0 <= k < divs@.len() ==> divs@[k] as int == #[trigger] divider_positions(
                    all,
                    i as int,
                )[k],
        decreases ls@.len() - i,
    {
        assert(all[i as int] == ls@[i as int]@);
        if is_day_divider_chars(&ls[i]) {
            divs.push(i);
        }
        i += 1;
    }
    proof {
        lemma_divider_positions(all, all.len() as int);
    }
    assert(all.len() == ls@.len());
    assert(divider_positions(all, i as int) == dividers(all));
    if divs.len() > 0 {
        assert(divs@[0] as int == dividers(all)[0]);
    }
    let pre_end = if divs.len() > 0 {
        divs[0]
    } else {
        ls.len()
    };
    let reference = blocks_of(&ls, 0, pre_end);
    assert(all.subrange(0, pre_end as int) =~= all.take(pre_end as int));
    // Collect the dated entries in file order.
    let mut found: Vec<Day> = Vec::new();
    let mut k: usize = 0;
    while k < divs.len()
        invariant
            k <= divs@.len(),
            all == ls.deep_view(),
            all.len() == ls@.len(),
            divs@.len() == dividers(all).len(),
            forall|j: int| 0 <= j < divs@.len() ==> divs@[j] as int == #[trigger] dividers(all)[j],
            forall|j: int| 0 <= j < divs@.len() ==> 0 <= #[trigger] dividers(all)[j] < all.len(),
            forall|a: int, b: int|
                0 <= a < b < divs@.len() ==> #[trigger] dividers(all)[a] < #[trigger] dividers(
                    all,
                )[b],
            found@.map_values(|d: Day| day_view(d)) == entries_upto(all, k as int),
        decreases divs@.len() - k,
    {
        let start = divs[k];
        assert(start as int == dividers(all)[k as int]);
        let end = if k + 1 < divs.len() {
            divs[k + 1]
        } else {
            ls.len()
        };
        assert(k + 1 < divs@.len() ==> end as int == dividers(all)[k + 1]);
        let header = trim_chars(&ls[start]);
        assert(all[start as int] == ls@[start as int]@);
        let ghost before = found@.map_values(|d: Day| day_view(d));
        match first_date_exec(&header) {
            Some((m, d, y)) => {
                let title = trim_chars(&trim_end_char_exec(&header, ':'));
                let blocks = blocks_of(&ls, start + 1, end);
                let day = Day { year: y, month: m, day: d, title: string_of(&title), blocks };
                found.push(day);
                assert(found@.map_values(|d: Day| day_view(d)) =~= before.push(day_view(day)));
            },
            None => {},
        }
        k += 1;
    }
    // Newest first; same-date entries keep file order.
    let mut days: Vec<Day> = Vec::new();
    let ghost src = found@.map_values(|d: Day| day_view(d));
    assert(found@.map_values(|d: Day| day_view(d)) == entries_upto(all, divs@.len() as int));
    assert(src.take(0) =~= Seq::<DayView>::empty());
    assert(days@.map_values(|d: Day| day_view(d)) =~= Seq::<DayView>::empty());
    let mut n: usize = 0;
    let total = found.len();
    let mut rest = found;
    assert(src.skip(0) =~= src);
    while rest.len() > 0
        invariant
            n <= src.len(),
            src.len() == total,
            rest@.map_values(|d: Day| day_view(d)) == src.skip(n as int),
            days@.map_values(|d: Day| day_view(d)) == sort_newest_first(src.take(n as int)),
        decreases rest@.len(),
    {
        let ghost dv = days@.map_values(|d: Day| day_view(d));
        let ghost rv = rest@.map_values(|d: Day| day_view(d));
        let x = rest.remove(0);
        assert(rv[0] == day_view(x));
        assert(rest@.map_values(|d: Day| day_view(d)) =~= rv.drop_first());
        assert(src.skip(n as int).drop_first() =~= src.skip(n + 1));
        let mut p: usize = 0;
        while p < days.len() && !earlier_exec(&days[p], &x)
            invariant
                p <= days@.len(),
                dv == days@.map_values(|d: Day| day_view(d)),
                forall|j: int| 0 <= j < p ==> !earlier(#[trigger] dv[j], day_view(x)),
            decreases days@.len() - p,
        {
            p += 1;
        }
        proof {
            lemma_insert_desc(dv, p as int, day_view(x));
        }
        days.insert(p, x);
        assert(days@.map_values(|d: Day| day_view(d)) =~= dv.insert(p as int, day_view(x)));
        assert(src[n as int] == day_view(x));
        assert(src.take(n + 1).drop_last() =~= src.take(n as int));
        n += 1;
    }
    assert(src.skip(n as int).len() == 0);
    assert(src.take(n as int) =~= src);
    JournalPlan { reference, days }
}

/// Cards across a day's canvas: two fit a canvas beside the tree panel
/// without horizontal panning.
pub const CARD_COLS: usize = 2;

/// The longest card title, in characters, before it is cut.
pub const CARD_TITLE_MAX: usize = 42;

/// A card made from one block of an entry: its slot in the grid (column
/// and row), its title and its body.
pub struct JournalCard {
    pub col: usize,
    pub row: usize,
    pub title: String,
    pub body: String,
}

/// The lines of a block joined with Markdown hard breaks (two spaces and a
/// newline), so that each source line stays on its own line.
pub open spec fn join_hard_breaks(ls: Seq<Seq<char>>) -> Seq<char>
    decreases ls.len(),
{
    if ls.len() == 0 {
        Seq::empty()
    } else if ls.len() == 1 {
        ls[0]
    } else {
        join_hard_breaks(ls.drop_last()) + "  \n"@ + ls.last()
    }
}

/// A block's card title: its first line, cut to `CARD_TITLE_MAX`.
pub open spec fn card_title(block: Seq<Seq<char>>) -> Seq<char> {
    if block.len() == 0 {
        Seq::empty()
    } else {
        spec_truncate(block[0], CARD_TITLE_MAX as nat)
    }
}

fn join_block(block: &Vec<String>) -> (r: String)
    ensures
        r@ == join_hard_breaks(block.deep_view()),
{
    let ghost src = block.deep_view();
    let mut out: Vec<char> = Vec::new();
    let brk = chars_of("  \n");
    let mut i: usize = 0;
    while i < block.len()
        invariant
            i <= block@.len(),
            src == block.deep_view(),
            brk@ == "  \n"@,
            out@ == join_hard_breaks(src.take(i as int)),
        decreases block@.len() - i,
    {
        let line = chars_of(block[i].as_str());
        assert(src[i as int] == block@[i as int]@);
        let ghost t = src.take(i + 1);
        assert(t.drop_last() =~= src.take(i as int));
        if i == 0 {
            assert(t.len() == 1);
            out = line;
            assert(out@ =~= join_hard_breaks(t));
        } else {
            out = concat_chars(&concat_chars(&out, &brk), &line);
        }
        i += 1;
    }
    assert(src.take(block@.len() as int) =~= src);
    string_of(&out)
}

/// One card per block, two to a row, in order: the block's first line
/// (cut to `CARD_TITLE_MAX`) is the title and the whole block, with hard
/// line breaks, the body.
pub fn journal_cards(blocks: &Vec<Vec<String>>) -> (r: Vec<JournalCard>)
    ensures
        r@.len() == blocks@.len(),
        forall|i: int|
            0 <= i < r@.len() ==> {
                &&& #[trigger] r@[i].col == i % CARD_COLS as int
                &&& r@[i].row == i / CARD_COLS as int
                &&& r@[i].title@ == card_title(blocks.deep_view()[i])
                &&& r@[i].body@ == join_hard_breaks(blocks.deep_view()[i])
            },
{
    let ghost src = blocks.deep_view();
    let mut r: Vec<JournalCard> = Vec::new();
    let mut i: usize = 0;
    while i < blocks.len()
        invariant
            i <= blocks@.len(),
            src == blocks.deep_view(),
            r@.len() == i,
            forall|k: int|
                0 <= k < i ==> {
                    &&& #[trigger] r@[k].col == k % CARD_COLS as int
                    &&& r@[k].row == k / CARD_COLS as int
                    &&& r@[k].title@ == card_title(src[k])
                    &&& r@[k].body@ == join_hard_breaks(src[k])
                },
        decreases blocks@.len() - i,
    {
        let block = &blocks[i];
        assert(src[i as int] == block.deep_view());
        let title = if block.len() == 0 {
            String::new()
        } else {
            assert(block.deep_view()[0] == block@[0]@);
            truncate(block[0].as_str(), CARD_TITLE_MAX)
        };
        let body = join_block(block);
        r.push(JournalCard { col: i % CARD_COLS, row: i / CARD_COLS, title, body });
        i += 1;
    }
    r
}

/// A copy of a block list.
fn copy_blocks(blocks: &Vec<Vec<String>>) -> (r: Vec<Vec<String>>)
    ensures
        r.deep_view() == blocks.deep_view(),
{
    let mut r: Vec<Vec<String>> = Vec::new();
    let mut i: usize = 0;
    while i < blocks.len()
        invariant
            i <= blocks@.len(),
            r.deep_view() =~= blocks.deep_view().take(i as int),
        decreases blocks@.len() - i,
    {
        let b = &blocks[i];
        let mut c: Vec<String> = Vec::new();
        let mut j: usize = 0;
        while j < b.len()
            invariant
                j <= b@.len(),
                c.deep_view() =~= b.deep_view().take(j as int),
            decreases b@.len() - j,
        {
            let x = b[j].clone();
            let ghost before = c.deep_view();
            c.push(x);
            assert(c.deep_view() =~= before.push(x@));
            assert(b.deep_view().take(j + 1) =~= b.deep_view().take(j as int).push(b@[j as int]@));
            j += 1;
        }
        assert(b.deep_view().take(b@.len() as int) =~= b.deep_view());
        let ghost before = r.deep_view();
        r.push(c);
        assert(r.deep_view() =~= before.push(c.deep_view()));
        assert(blocks.deep_view().take(i + 1) =~= blocks.deep_view().take(i as int).push(
            blocks@[i as int].deep_view(),
        ));
        i += 1;
    }
    r
}

/// A node of the imported outline: its parent's position in the list, its
/// title, and the blocks that become its cards.
pub struct OutlineNode {
    pub parent: Option<usize>,
    pub title: String,
    pub blocks: Vec<Vec<String>>,
}

/// An outline node as the spec sees it.
pub type NodeView = (Option<nat>, Seq<char>, Seq<Seq<Seq<char>>>);

/// The view of an outline node.
pub open spec fn node_view(n: OutlineNode) -> NodeView {
    (
        match n.parent {
            Some(p) => Some(p as nat),
            None => None,
        },
        n.title@,
        n.blocks.deep_view(),
    )
}

/// The title of a year's node: the year in decimal.
pub open spec fn year_title(y: int) -> Seq<char> {
    if y >= 0 {
        decimal(y as nat)
    } else {
        "-"@ + decimal((-y) as nat)
    }
}

/// The node of year `y` among the year nodes made so far.
pub open spec fn year_node(years: Seq<(int, nat)>, y: int) -> Option<nat>
    decreases years.len(),
{
    if years.len() == 0 {
        None
    } else if years.last().0 == y {
        Some(years.last().1)
    } else {
        year_node(years.drop_last(), y)
    }
}

/// The node of month `m` of year `y` among the month nodes made so far.
pub open spec fn month_node(months: Seq<(int, nat, nat)>, y: int, m: nat) -> Option<nat>
    decreases months.len(),
{
    if months.len() == 0 {
        None
    } else if months.last().0 == y && months.last().1 == m {
        Some(months.last().2)
    } else {
        month_node(months.drop_last(), y, m)
    }
}

/// The outline so far: its nodes, the year nodes and the month nodes.
pub type OutlineState = (Seq<NodeView>, Seq<(int, nat)>, Seq<(int, nat, nat)>);

/// Adds one day: its year's node and its month's node under it, each made
/// the first time they are needed, then the day's node under its month.
pub open spec fn outline_day(st: OutlineState, d: DayView) -> OutlineState {
    let nodes = st.0;
    let (nodes, years, yn) = match year_node(st.1, d.0) {
        Some(i) => (nodes, st.1, i),
        None => (
            nodes.push((None, year_title(d.0), Seq::empty())),
            st.1.push((d.0, nodes.len())),
            nodes.len(),
        ),
    };
    let (nodes, months, mn) = match month_node(st.2, d.0, d.1) {
        Some(i) => (nodes, st.2, i),
        None => (
            nodes.push((Some(yn), spec_month_name(d.1), Seq::empty())),
            st.2.push((d.0, d.1, nodes.len())),
            nodes.len(),
        ),
    };
    (nodes.push((Some(mn), d.3, d.4)), years, months)
}

/// Adds the days in order.
pub open spec fn outline_days(st: OutlineState, days: Seq<DayView>) -> OutlineState
    decreases days.len(),
{
    if days.len() == 0 {
        st
    } else {
        outline_day(outline_days(st, days.drop_last()), days.last())
    }
}

/// The outline of an import: a "Reference" node for the preamble when it
/// has blocks, then year, month and day nodes for the entries in order.
pub open spec fn spec_outline(reference: Seq<Seq<Seq<char>>>, days: Seq<DayView>) -> Seq<NodeView> {
    let start: Seq<NodeView> = if reference.len() > 0 {
        seq![(None, "Reference"@, reference)]
    } else {
        Seq::empty()
    };
    outline_days((start, Seq::empty(), Seq::empty()), days).0
}

fn year_title_exec(y: i32) -> (r: String)
    ensures
        r@ == year_title(y as int),
{
    let mut out: Vec<char> = Vec::new();
    if y >= 0 {
        push_decimal(&mut out, y as u64);
    } else {
        out.push('-');
        let a: i64 = -(y as i64);
        push_decimal(&mut out, a as u64);
        assert(out@ =~= "-"@ + decimal((-y) as nat)) by {
            reveal_strlit("-");
        }
    }
    string_of(&out)
}

fn find_year(years: &Vec<(i32, usize)>, y: i32) -> (r: Option<usize>)
    ensures
        ({
            let v = years@.map_values(|p: (i32, usize)| (p.0 as int, p.1 as nat));
            match r {
                Some(i) => year_node(v, y as int) == Some(i as nat),
                None => year_node(v, y as int) is None,
            }
        }),
{
    let ghost v = years@.map_values(|p: (i32, usize)| (p.0 as int, p.1 as nat));
    let mut k: usize = years.len();
    assert(v.take(k as int) =~= v);
    while k > 0
        invariant
            k <= years@.len(),
            v == years@.map_values(|p: (i32, usize)| (p.0 as int, p.1 as nat)),
            year_node(v.take(k as int), y as int) == year_node(v, y as int),
        decreases k,
    {
        assert(v.take(k as int).drop_last() =~= v.take(k - 1));
        assert(v.take(k as int).last() == v[k - 1]);
        if years[k - 1].0 == y {
            return Some(years[k - 1].1);
        }
        k -= 1;
    }
    assert(v.take(0) =~= Seq::<(int, nat)>::empty());
    None
}

fn find_month(months: &Vec<(i32, u32, usize)>, y: i32, m: u32) -> (r: Option<usize>)
    ensures
        ({
            let v = months@.map_values(|p: (i32, u32, usize)| (p.0 as int, p.1 as nat, p.2 as nat));
            match r {
                Some(i) => month_node(v, y as int, m as nat) == Some(i as nat),
                None => month_node(v, y as int, m as nat) is None,
            }
        }),
{
    let ghost v = months@.map_values(|p: (i32, u32, usize)| (p.0 as int, p.1 as nat, p.2 as nat));
    let mut k: usize = months.len();
    assert(v.take(k as int) =~= v);
    while k > 0
        invariant
            k <= months@.len(),
            v == months@.map_values(|p: (i32, u32, usize)| (p.0 as int, p.1 as nat, p.2 as nat)),
            month_node(v.take(k as int), y as int, m as nat) == month_node(v, y as int, m as nat),
        decreases k,
    {
        assert(v.take(k as int).drop_last() =~= v.take(k - 1));
        assert(v.take(k as int).last() == v[k - 1]);
        if months[k - 1].0 == y && months[k - 1].1 == m {
            return Some(months[k - 1].2);
        }
        k -= 1;
    }
    assert(v.take(0) =~= Seq::<(int, nat, nat)>::empty());
    None
}

/// The outline an import builds: a "Reference" node for the preamble when
/// it has blocks, then for each entry in order its year node and its month
/// node under it, each made once, and the entry's node under its month.
pub fn journal_outline(plan: &JournalPlan) -> (r: Vec<OutlineNode>)
    ensures
        r@.map_values(|n: OutlineNode| node_view(n)) == spec_outline(
            plan.reference.deep_view(),
            plan.days@.map_values(|d: Day| day_view(d)),
        ),
{
    let ghost dv = plan.days@.map_values(|d: Day| day_view(d));
    let mut nodes: Vec<OutlineNode> = Vec::new();
    if plan.reference.len() > 0 {
        nodes.push(OutlineNode {
            parent: None,
            title: "Reference".to_owned(),
            blocks: copy_blocks(&plan.reference),
        });
    }
    let ghost start = nodes@.map_values(|n: OutlineNode| node_view(n));
    assert(start =~= (if plan.reference.deep_view().len() > 0 {
        seq![(None::<nat>, "Reference"@, plan.reference.deep_view())]
    } else {
        Seq::<NodeView>::empty()
    }));
    let mut years: Vec<(i32, usize)> = Vec::new();
    let mut months: Vec<(i32, u32, usize)> = Vec::new();
    let mut i: usize = 0;
    assert(dv.take(0) =~= Seq::<DayView>::empty());
    while i < plan.days.len()
        invariant
            i <= plan.days@.len(),
            dv == plan.days@.map_values(|d: Day| day_view(d)),
            outline_days((start, Seq::empty(), Seq::empty()), dv.take(i as int)) == (
                nodes@.map_values(|n: OutlineNode| node_view(n)),
                years@.map_values(|p: (i32, usize)| (p.0 as int, p.1 as nat)),
                months@.map_values(|p: (i32, u32, usize)| (p.0 as int, p.1 as nat, p.2 as nat)),
            ),
        decreases plan.days@.len() - i,
    {
        let d = &plan.days[i];
        assert(dv.take(i + 1).drop_last() =~= dv.take(i as int));
        assert(dv.take(i + 1).last() == day_view(*d));
        let ghost nv0 = nodes@.map_values(|n: OutlineNode| node_view(n));
        let ghost yv0 = years@.map_values(|p: (i32, usize)| (p.0 as int, p.1 as nat));
        let yn = match find_year(&years, d.year) {
            Some(k) => k,
            None => {
                let k = nodes.len();
                let none: Vec<Vec<String>> = Vec::new();
                assert(none.deep_view() =~= Seq::<Seq<Seq<char>>>::empty());
                let node = OutlineNode { parent: None, title: year_title_exec(d.year), blocks: none };
                assert(node_view(node) == (None::<nat>, year_title(d.year as int), Seq::<Seq<Seq<char>>>::empty()));
                nodes.push(node);
                years.push((d.year, k));
                assert(nodes@.map_values(|n: OutlineNode| node_view(n)) =~= nv0.push(
                    (None, year_title(d.year as int), Seq::empty()),
                ));
                assert(years@.map_values(|p: (i32, usize)| (p.0 as int, p.1 as nat)) =~= yv0.push(
                    (d.year as int, nv0.len()),
                ));
                k
            },
        };
        let ghost nv1 = nodes@.map_values(|n: OutlineNode| node_view(n));
        let ghost mv0 = months@.map_values(|p: (i32, u32, usize)| (p.0 as int, p.1 as nat, p.2 as nat));
        let mn = match find_month(&months, d.year, d.month) {
            Some(k) => k,
            None => {
                let k = nodes.len();
                let none: Vec<Vec<String>> = Vec::new();
                assert(none.deep_view() =~= Seq::<Seq<Seq<char>>>::empty());
                let node = OutlineNode { parent: Some(yn), title: month_name(d.month), blocks: none };
                assert(node_view(node) == (Some(yn as nat), spec_month_name(d.month as nat), Seq::<Seq<Seq<char>>>::empty()));
                nodes.push(node);
                months.push((d.year, d.month, k));
                assert(nodes@.map_values(|n: OutlineNode| node_view(n)) =~= nv1.push(
                    (Some(yn as nat), spec_month_name(d.month as nat), Seq::empty()),
                ));
                assert(months@.map_values(|p: (i32, u32, usize)| (p.0 as int, p.1 as nat, p.2 as nat)) =~= mv0.push(
                    (d.year as int, d.month as nat, nv1.len()),
                ));
                k
            },
        };
        let ghost nv2 = nodes@.map_values(|n: OutlineNode| node_view(n));
        nodes.push(OutlineNode { parent: Some(mn), title: d.title.clone(), blocks: copy_blocks(&d.blocks) });
        assert(nodes@.map_values(|n: OutlineNode| node_view(n)) =~= nv2.push(
            (Some(mn as nat), d.title@, d.blocks.deep_view()),
        ));
        i += 1;
    }
    assert(dv.take(plan.days@.len() as int) =~= dv);
    nodes
}

} // verus!
