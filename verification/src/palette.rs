//! The quick-switcher palette: reading a typed id, ranking fuzzy matches,
//! labelling card rows, and shortening long rows for display.

use vstd::prelude::*;
use vstd::utf8::encode_utf8;
use crate::text::{
    all_digits, all_digits_in, byte_offset, chars_of, concat_chars, digits_value,
    digits_value_upto, find_chars, find_from, is_whitespace, last_ws, lemma_find_from_bound,
    lemma_last_ws_bound, lines, matches_at, split_lines, string_of, sub_chars, trim, trim_chars,
    trim_end, trim_end_index, trim_start_index,
};

verus! {

/// The digits a query names once trimmed and stripped of one leading `#`.
pub open spec fn node_id_digits(q: Seq<char>) -> Seq<char> {
    let t = trim(q);
    if t.len() > 0 && t[0] == '#' {
        t.drop_first()
    } else {
        t
    }
}

/// The node id a Go-to-node query names: `12`, `#12`, with surrounding
/// space, and nothing else.
pub open spec fn spec_queried_node_id(q: Seq<char>) -> Option<nat> {
    let d = node_id_digits(q);
    if d.len() > 0 && all_digits(d) && digits_value(d) <= u64::MAX {
        Some(digits_value(d))
    } else {
        None
    }
}

/// The digits of a group-id query (`g146`, `#G146`), if it has the `g`.
pub open spec fn group_id_digits(q: Seq<char>) -> Option<Seq<char>> {
    let r = node_id_digits(q);
    if r.len() > 0 && (r[0] == 'g' || r[0] == 'G') {
        Some(r.drop_first())
    } else {
        None
    }
}

/// The group id a query names.
pub open spec fn spec_queried_group_id(q: Seq<char>) -> Option<nat> {
    match group_id_digits(q) {
        Some(d) => if d.len() > 0 && all_digits(d) && digits_value(d) <= u64::MAX {
            Some(digits_value(d))
        } else {
            None
        },
        None => None,
    }
}

/// Trims `v` and drops one leading `'#'`: returns the bounds of what is left.
fn id_digit_bounds(v: &Vec<char>) -> (r: (usize, usize))
    ensures
        r.0 <= r.1 <= v@.len(),
        v@.subrange(r.0 as int, r.1 as int) == node_id_digits(v@),
{
    let i = trim_start_index(v);
    let j = trim_end_index(v, i, v.len());
    assert(v@.subrange(i as int, v@.len() as int) =~= v@.skip(i as int));
    let ghost t = v@.subrange(i as int, j as int);
    assert(t == trim(v@));
    if i < j && v[i] == '#' {
        assert(t.drop_first() =~= v@.subrange(i + 1, j as int));
        (i + 1, j)
    } else {
        (i, j)
    }
}

/// The node id a Go-to-node query names, if it is one.
///
/// Accepts `12` and `#12`, with surrounding space. Nothing else: `12 notes` is
/// a search for a title, not an id.
pub fn queried_node_id(query: &str) -> (r: Option<u64>)
    ensures
        match r {
            Some(x) => spec_queried_node_id(query@) == Some(x as nat),
            None => spec_queried_node_id(query@) is None,
        },
{
    let v = chars_of(query);
    let (a, b) = id_digit_bounds(&v);
    if a == b || !all_digits_in(&v, a, b) {
        return None;
    }
    digits_value_upto(&v, a, b, u64::MAX)
}

/// A typed group id: `g146` or `#g146`.
pub fn queried_group_id(query: &str) -> (r: Option<u64>)
    ensures
        match r {
            Some(x) => spec_queried_group_id(query@) == Some(x as nat),
            None => spec_queried_group_id(query@) is None,
        },
{
    let v = chars_of(query);
    let (a, b) = id_digit_bounds(&v);
    if a == b || !(v[a] == 'g' || v[a] == 'G') {
        return None;
    }
    assert(node_id_digits(v@).drop_first() =~= v@.subrange(a + 1, b as int));
    if a + 1 == b || !all_digits_in(&v, a + 1, b) {
        return None;
    }
    digits_value_upto(&v, a + 1, b, u64::MAX)
}

/// Where a greedy left-to-right match of the non-empty `q` against `t`
/// completes, counting positions from `off`.
pub open spec fn greedy_end(q: Seq<char>, t: Seq<char>, off: int) -> Option<int>
    decreases t.len(),
{
    if q.len() == 0 || t.len() == 0 {
        None
    } else if t[0] == q[0] {
        if q.len() == 1 {
            Some(off)
        } else {
            greedy_end(q.drop_first(), t.drop_first(), off + 1)
        }
    } else {
        greedy_end(q, t.drop_first(), off + 1)
    }
}

/// The subsequence score: `0` for an empty query, else the position at which
/// the earliest in-order match of every character of `q` ends.
pub open spec fn spec_subseq_score(q: Seq<char>, t: Seq<char>) -> Option<int> {
    if q.len() == 0 {
        Some(0)
    } else {
        greedy_end(q, t, 0)
    }
}

proof fn lemma_greedy_end_bound(q: Seq<char>, t: Seq<char>, off: int)
    ensures
        greedy_end(q, t, off) matches Some(e) ==> off <= e < off + t.len(),
    decreases t.len(),
{
    if q.len() > 0 && t.len() > 0 {
        if t[0] == q[0] {
            if q.len() > 1 {
                lemma_greedy_end_bound(q.drop_first(), t.drop_first(), off + 1);
            }
        } else {
            lemma_greedy_end_bound(q, t.drop_first(), off + 1);
        }
    }
}

/// If every char of `q` appears in `text` in order, score by how early and how
/// tightly they matched (lower = better); else `None`.
pub fn subseq_score(q: &str, text: &str) -> (r: Option<i32>)
    requires
        text@.len() <= i32::MAX,
    ensures
        match r {
            Some(x) => spec_subseq_score(q@, text@) == Some(x as int),
            None => spec_subseq_score(q@, text@) is None,
        },
{
    let qv = chars_of(q);
    let tv = chars_of(text);
    if qv.len() == 0 {
        return Some(0);
    }
    let ghost g = greedy_end(qv@, tv@, 0);
    let mut k: usize = 0;
    let mut last: usize = 0;
    let mut i: usize = 0;
    assert(qv@.skip(0) =~= qv@);
    assert(tv@.skip(0) =~= tv@);
    while i < tv.len()
        invariant
            0 < qv@.len(),
            k <= qv@.len(),
            i <= tv@.len() <= i32::MAX,
            k < qv@.len() ==> greedy_end(qv@.skip(k as int), tv@.skip(i as int), i as int) == g,
            k == qv@.len() ==> g == Some(last as int),
            last < tv@.len() || k < qv@.len(),
        decreases tv@.len() - i,
    {
        if k < qv.len() && tv[i] == qv[k] {
            proof {
                assert(qv@.skip(k as int)[0] == qv@[k as int]);
                assert(tv@.skip(i as int)[0] == tv@[i as int]);
                assert(qv@.skip(k as int).drop_first() =~= qv@.skip(k + 1));
                assert(tv@.skip(i as int).drop_first() =~= tv@.skip(i + 1));
            }
            last = i;
            k += 1;
        } else if k < qv.len() {
            proof {
                assert(tv@.skip(i as int)[0] == tv@[i as int]);
                assert(tv@.skip(i as int).drop_first() =~= tv@.skip(i + 1));
            }
        }
        i += 1;
    }
    if k == qv.len() {
        Some(last as i32)
    } else {
        assert(tv@.skip(i as int).len() == 0);
        None
    }
}

/// The byte offset at which `p` first occurs in `t`, as `str::find` reports it.
pub open spec fn byte_find(t: Seq<char>, p: Seq<char>) -> Option<int> {
    match find_from(t, p, 0) {
        Some(i) => Some(encode_utf8(t.take(i)).len() as int),
        None => None,
    }
}

/// The palette ranking of a node, lower = better.
pub open spec fn spec_fuzzy_score(query: Seq<char>, title: Seq<char>, hay: Seq<char>) -> Option<int> {
    if query.len() == 0 {
        Some(1000)
    } else if byte_find(title, query) is Some {
        Some((byte_find(title, query)->0) as i32 as int)
    } else if spec_subseq_score(query, title) is Some {
        Some(100 + spec_subseq_score(query, title)->0)
    } else if find_from(hay, query, 0) is Some {
        Some(400)
    } else if spec_subseq_score(query, hay) is Some {
        Some(500 + spec_subseq_score(query, hay)->0)
    } else {
        None
    }
}

/// Rank how well `query` (already lowercased) matches a node, lower = better.
/// Prefers a title substring, then a title subsequence, then a path hit. An
/// empty query matches everything.
pub fn fuzzy_score(query: &str, title: &str, hay: &str) -> (r: Option<i32>)
    requires
        title@.len() <= 0x7fff_0000,
        hay@.len() <= 0x7fff_0000,
    ensures
        match r {
            Some(x) => spec_fuzzy_score(query@, title@, hay@) == Some(x as int),
            None => spec_fuzzy_score(query@, title@, hay@) is None,
        },
{
    let qv = chars_of(query);
    if qv.len() == 0 {
        return Some(1000);
    }
    let tv = chars_of(title);
    if let Some(i) = find_chars(&tv, &qv) {
        proof {
            lemma_find_from_bound(tv@, qv@, 0);
        }
        let pos = byte_offset(&tv, i);
        return Some(pos as i32);
    }
    if let Some(s) = subseq_score(query, title) {
        proof {
            lemma_greedy_end_bound(qv@, tv@, 0);
        }
        return Some(100 + s);
    }
    let hv = chars_of(hay);
    if find_chars(&hv, &qv).is_some() {
        return Some(400);
    }
    if let Some(s) = subseq_score(query, hay) {
        proof {
            lemma_greedy_end_bound(qv@, hv@, 0);
        }
        return Some(500 + s);
    }
    None
}

/// `text` shortened to `max` characters on a word boundary, with an ellipsis.
pub open spec fn spec_elide(text: Seq<char>, max: nat) -> Seq<char> {
    if text.len() <= max {
        text
    } else {
        let head = text.take(max as int);
        let cut = match last_ws(head) {
            Some(i) => i,
            None => head.len() as int,
        };
        trim_end(head.take(cut)).push('…')
    }
}

/// Index of the last whitespace character of `v`.
pub fn last_ws_index(v: &Vec<char>) -> (r: Option<usize>)
    ensures
        match r {
            Some(i) => last_ws(v@) == Some(i as int),
            None => last_ws(v@) is None,
        },
{
    let mut j: usize = v.len();
    assert(v@.take(j as int) =~= v@);
    while j > 0
        invariant
            j <= v@.len(),
            last_ws(v@.take(j as int)) == last_ws(v@),
        decreases j,
    {
        assert(v@.take(j as int).last() == v@[j - 1]);
        if is_whitespace(v[j - 1]) {
            return Some(j - 1);
        }
        assert(v@.take(j as int).drop_last() =~= v@.take(j - 1));
        j -= 1;
    }
    None
}

/// Shorten `text` to `max` characters on a word boundary, with an ellipsis.
///
/// Counts characters, never bytes, and breaks at whitespace so a row never
/// ends mid-word.
pub fn elide(text: &str, max: usize) -> (r: String)
    ensures
        r@ == spec_elide(text@, max as nat),
{
    let v = chars_of(text);
    if v.len() <= max {
        return text.to_owned();
    }
    let head = sub_chars(&v, 0, max);
    assert(head@ == text@.take(max as int));
    proof {
        lemma_last_ws_bound(head@);
    }
    let cut = match last_ws_index(&head) {
        Some(i) => i,
        None => head.len(),
    };
    let j = trim_end_index(&head, 0, cut);
    assert(head@.subrange(0, cut as int) =~= head@.take(cut as int));
    let mut out = sub_chars(&head, 0, j);
    out.push('…');
    string_of(&out)
}

/// What `split_for_extract` returns for a body and a character range.
pub open spec fn spec_split_for_extract(chars: Seq<char>, from: int, to: int) -> Option<
    (Seq<char>, Seq<char>, Seq<char>),
> {
    if from >= to || to > chars.len() {
        None
    } else {
        let head = chars.take(from);
        let tail = chars.skip(to);
        Some(
            (
                chars.subrange(from, to),
                if head.len() > 0 && head.last() != '\n' {
                    head.push('\n')
                } else {
                    head
                },
                if tail.len() > 0 && tail[0] != '\n' {
                    seq!['\n'] + tail
                } else {
                    tail
                },
            ),
        )
    }
}

/// Split a body for extracting a selection into its own card: the text to
/// move out, and the head and tail the embed goes between.
///
/// The embed has to land on its own line, so a newline is added to the head
/// and to the tail where there is not one already. `None` for an empty range.
pub fn split_for_extract(chars: &[char], from: usize, to: usize) -> (r: Option<
    (String, String, String),
>)
    ensures
        match r {
            Some((t, h, l)) => spec_split_for_extract(chars@, from as int, to as int) == Some(
                (t@, h@, l@),
            ),
            None => spec_split_for_extract(chars@, from as int, to as int) is None,
        },
{
    if from >= to || to > chars.len() {
        return None;
    }
    let mut v: Vec<char> = Vec::new();
    let mut i: usize = 0;
    while i < chars.len()
        invariant
            i <= chars@.len(),
            v@ == chars@.take(i as int),
        decreases chars@.len() - i,
    {
        v.push(chars[i]);
        i += 1;
        assert(v@ =~= chars@.take(i as int));
    }
    assert(v@ =~= chars@);
    let taken = sub_chars(&v, from, to);
    let mut head = sub_chars(&v, 0, from);
    let tail0 = sub_chars(&v, to, v.len());
    assert(head@ =~= chars@.take(from as int));
    assert(tail0@ =~= chars@.skip(to as int));
    if head.len() > 0 && head[head.len() - 1] != '\n' {
        head.push('\n');
    }
    let tail = if tail0.len() > 0 && tail0[0] != '\n' {
        let mut t: Vec<char> = Vec::new();
        t.push('\n');
        let mut k: usize = 0;
        while k < tail0.len()
            invariant
                k <= tail0@.len(),
                t@ == seq!['\n'] + tail0@.take(k as int),
            decreases tail0@.len() - k,
        {
            t.push(tail0[k]);
            k += 1;
            assert(t@ =~= seq!['\n'] + tail0@.take(k as int));
        }
        assert(tail0@.take(k as int) =~= tail0@);
        t
    } else {
        tail0
    };
    Some((string_of(&taken), string_of(&head), string_of(&tail)))
}

/// Markdown ornament stripped from the start of a palette row.
pub open spec fn is_mark(c: char) -> bool {
    c == '#' || c == '-' || c == '*' || c == '>' || c == ' '
}

/// `s` without its leading markdown ornament.
pub open spec fn strip_marks(s: Seq<char>) -> Seq<char>
    decreases s.len(),
{
    if s.len() > 0 && is_mark(s[0]) {
        strip_marks(s.drop_first())
    } else {
        s
    }
}

/// A body line as the palette shows it.
pub open spec fn clean_line(l: Seq<char>) -> Seq<char> {
    trim(strip_marks(l))
}

/// The first line that is not empty once cleaned, cleaned.
pub open spec fn first_label(ls: Seq<Seq<char>>) -> Seq<char>
    decreases ls.len(),
{
    if ls.len() == 0 {
        seq![]
    } else if clean_line(ls[0]).len() > 0 {
        clean_line(ls[0])
    } else {
        first_label(ls.drop_first())
    }
}

/// What a palette row calls a card.
pub open spec fn spec_card_label(title: Seq<char>, body: Seq<char>) -> Seq<char> {
    if trim(title).len() > 0 {
        title
    } else {
        let line = first_label(lines(body));
        if line.len() == 0 {
            "(untitled card)"@
        } else if line.len() > 60 {
            line.take(60).push('…')
        } else {
            line
        }
    }
}

/// `l` cleaned for a palette row.
fn clean_chars(l: &Vec<char>) -> (r: Vec<char>)
    ensures
        r@ == clean_line(l@),
{
    let mut i: usize = 0;
    assert(l@.skip(0) =~= l@);
    while i < l.len() && (l[i] == '#' || l[i] == '-' || l[i] == '*' || l[i] == '>' || l[i]
        == ' ')
        invariant
            i <= l@.len(),
            strip_marks(l@.skip(i as int)) == strip_marks(l@),
        decreases l@.len() - i,
    {
        assert(l@.skip(i as int).drop_first() =~= l@.skip(i + 1));
        i += 1;
    }
    let rest = sub_chars(l, i, l.len());
    assert(rest@ =~= l@.skip(i as int));
    trim_chars(&rest)
}

/// What to call a card in the palette: its title, or failing that the first
/// non-empty line of its body with markdown ornament stripped, cut to 60
/// characters; `(untitled card)` when there is nothing at all.
pub fn card_label(title: &str, body: &str) -> (r: String)
    ensures
        r@ == spec_card_label(title@, body@),
{
    let tv = chars_of(title);
    let tt = trim_chars(&tv);
    if tt.len() > 0 {
        return title.to_owned();
    }
    let bv = chars_of(body);
    let ls = split_lines(&bv);
    let ghost all = ls.deep_view();
    let mut line: Vec<char> = Vec::new();
    let mut i: usize = 0;
    let mut found = false;
    assert(all.skip(0) =~= all);
    while i < ls.len() && !found
        invariant
            i <= ls@.len(),
            all == ls.deep_view(),
            all.len() == ls@.len(),
            !found ==> first_label(all.skip(i as int)) == first_label(all),
            !found ==> line@.len() == 0,
            found ==> line@ == first_label(all),
        decreases ls@.len() - i + (if found { 0int } else { 1int }),
    {
        assert(all[i as int] == ls@[i as int]@);
        let c = clean_chars(&ls[i]);
        assert(all.skip(i as int)[0] == all[i as int]);
        if c.len() > 0 {
            line = c;
            found = true;
        } else {
            assert(all.skip(i as int).drop_first() =~= all.skip(i + 1));
            i += 1;
        }
    }
    assert(!found ==> all.skip(i as int) =~= Seq::<Seq<char>>::empty());
    assert(line@ == first_label(all));
    if line.len() == 0 {
        "(untitled card)".to_owned()
    } else if line.len() > 60 {
        let mut out = sub_chars(&line, 0, 60);
        out.push('…');
        string_of(&out)
    } else {
        string_of(&line)
    }
}

/// Joins `parts` with `sep` between neighbours.
pub open spec fn join(parts: Seq<Seq<char>>, sep: Seq<char>) -> Seq<char>
    decreases parts.len(),
{
    if parts.len() == 0 {
        seq![]
    } else if parts.len() == 1 {
        parts[0]
    } else {
        join(parts.drop_last(), sep) + sep + parts.last()
    }
}

/// The view of an optional string slice.
pub open spec fn opt_view(o: Option<&str>) -> Option<Seq<char>> {
    match o {
        Some(s) => Some(s@),
        None => None,
    }
}

/// The pieces of a saved view's name, in order.
pub open spec fn find_parts(
    tag: Option<Seq<char>>,
    key: Option<Seq<char>>,
    value: Seq<char>,
    text: Seq<char>,
) -> Seq<Seq<char>> {
    let a: Seq<Seq<char>> = match tag {
        Some(t) => seq!["#"@ + t],
        None => seq![],
    };
    let b: Seq<Seq<char>> = match key {
        Some(k) => if trim(value).len() == 0 {
            seq!["has "@ + k + "::"@]
        } else {
            seq![k + ":: "@ + trim(value)]
        },
        None => seq![],
    };
    let c: Seq<Seq<char>> = if trim(text).len() > 0 {
        seq!["\u{201c}"@ + trim(text) + "\u{201d}"@]
    } else {
        seq![]
    };
    a + b + c
}

/// The name of a view built from the Find panel's filters.
pub open spec fn spec_describe_find(
    tag: Option<Seq<char>>,
    key: Option<Seq<char>>,
    value: Seq<char>,
    text: Seq<char>,
) -> Seq<char> {
    let parts = find_parts(tag, key, value, text);
    if parts.len() == 0 {
        "Saved view"@
    } else {
        join(parts, " \u{b7} "@)
    }
}

fn join_chars(parts: &Vec<Vec<char>>, sep: &Vec<char>) -> (r: Vec<char>)
    ensures
        r@ == join(parts.deep_view(), sep@),
{
    let ghost ps = parts.deep_view();
    let mut r: Vec<char> = Vec::new();
    let mut i: usize = 0;
    assert(ps.take(0) =~= Seq::<Seq<char>>::empty());
    while i < parts.len()
        invariant
            i <= parts@.len(),
            ps == parts.deep_view(),
            r@ == join(ps.take(i as int), sep@),
        decreases parts@.len() - i,
    {
        assert(ps[i as int] == parts@[i as int]@);
        if i == 0 {
            r = concat_chars(&r, &parts[i]);
            assert(ps.take(1) =~= seq![ps[0]]);
        } else {
            let with_sep = concat_chars(&r, sep);
            r = concat_chars(&with_sep, &parts[i]);
            assert(ps.take(i + 1).drop_last() =~= ps.take(i as int));
        }
        i += 1;
    }
    assert(ps.take(i as int) =~= ps);
    r
}

fn push_part(parts: &mut Vec<Vec<char>>, x: Vec<char>)
    ensures
        final(parts).deep_view() == old(parts).deep_view().push(x@),
{
    parts.push(x);
    assert(x.deep_view() =~= x@);
    assert(parts.deep_view() =~= old(parts).deep_view().push(x@));
}

fn opt_chars(o: Option<&str>) -> (r: Option<Vec<char>>)
    ensures
        match r {
            Some(v) => opt_view(o) == Some(v@),
            None => o is None,
        },
{
    match o {
        Some(s) => Some(chars_of(s)),
        None => None,
    }
}

/// A readable name for a view built from the Find panel's filters, so the
/// card says what it shows without anyone opening it.
pub fn describe_find(tag: Option<&str>, key: Option<&str>, value: &str, text: &str) -> (r: String)
    ensures
        r@ == spec_describe_find(opt_view(tag), opt_view(key), value@, text@),
{
    let ghost want = find_parts(opt_view(tag), opt_view(key), value@, text@);
    let mut parts: Vec<Vec<char>> = Vec::new();
    if let Some(t) = opt_chars(tag) {
        let hash = chars_of("#");
        push_part(&mut parts, concat_chars(&hash, &t));
    }
    if let Some(k) = opt_chars(key) {
        let v = trim_chars(&chars_of(value));
        if v.len() == 0 {
            let has = chars_of("has ");
            let colons = chars_of("::");
            push_part(&mut parts, concat_chars(&concat_chars(&has, &k), &colons));
        } else {
            let colons = chars_of(":: ");
            push_part(&mut parts, concat_chars(&concat_chars(&k, &colons), &v));
        }
    }
    let t = trim_chars(&chars_of(text));
    if t.len() > 0 {
        let open = chars_of("\u{201c}");
        let close = chars_of("\u{201d}");
        push_part(&mut parts, concat_chars(&concat_chars(&open, &t), &close));
    }
    assert(parts.deep_view() =~= want);
    if parts.len() == 0 {
        "Saved view".to_owned()
    } else {
        let sep = chars_of(" \u{b7} ");
        string_of(&join_chars(&parts, &sep))
    }
}

} // verus!
