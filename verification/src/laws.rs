//! Properties of the library that span its functions or hold of all inputs.

use vstd::prelude::*;
use vstd::utf8::encode_utf8;
use crate::access::{hex, hex_digit, Ipv4, is_offerable, is_private, offerable, ranked, with_privacy};
use crate::backup::{any_remote, enabled_all, enabled_positions, BackupConfig, BackupDest, DestKind, backup_files, spec_retention_victims, spec_sftp_target, spec_stamp};
use crate::civil::{civil_from_days, date_lt, lemma_civil_monotone, lemma_civil_ranges};
use crate::grants::{first_plugin, spec_plugin_grant, without, GrantView, Scope};
use crate::history::{spec_history_gap_mins, spec_history_keep, snapshot_names, spec_history_victims, spec_newest_first};
use crate::journal::{
    spec_is_day_divider, spec_parse_date,
    month_node, outline_day, outline_days, spec_month_name, spec_outline, year_node, year_title,
    NodeView, OutlineState,
    blocks_from, earlier, is_break_line, lemma_insert_desc, sort_newest_first, spec_split_blocks,
    DayView,
};
use crate::links::{spec_scheme_startup, SchemeStartup, before, exec_value, spec_desktop_entry, spec_desktop_exec_path};
use crate::names::{
    exe_candidates, strip_deleted,
    Placement, Theme, spec_placement_str, spec_theme_from_key, spec_theme_key, spec_toggled,
};
use crate::order::{
    lemma_lex_antisym, lemma_lex_trans,
    lemma_lex_lt_extend, lemma_lex_lt_prefix, lemma_lex_total_ordering, lex_le, lex_lt, lex_order,
    sorted_names,
};
use crate::switcher::{
    all_rows, card_by_id, card_id_rows, card_title_rows, group_id_rows, insert_pos, node_by_id,
    node_rows, ranked_rows, ranks_before, spec_lowercase, spec_switcher_rows, CardEntry,
    GroupEntry, HitView, NodeEntry,
};
use crate::palette::{
    spec_queried_group_id, byte_find, clean_line, first_label, greedy_end, node_id_digits, spec_card_label, spec_elide,
    spec_fuzzy_score, spec_queried_node_id, spec_split_for_extract, spec_subseq_score, strip_marks,
};
use crate::undo::{
    has_discrete, last_alive, last_gesture, spec_undo_step, Gesture, UndoKind, MAX_UNDO,
};
use crate::text::{
    all_digits, decimal, digits_value, ends_with, find_from, is_digit, is_ws, last_ws,
    lemma_decimal_len, lemma_digits_order, lemma_find_from_first, lemma_lines_cons,
    lemma_zero_pad_digits, lines, matches_at, pow10, starts_with, trim, trim_end, trim_start,
    words, zero_pad,
};

verus! {

/// A theme saved under its key loads back as the same theme.
pub proof fn law_theme_key_round_trip(t: Theme)
    ensures
        spec_theme_from_key(spec_theme_key(t)) == t,
{
    reveal_strlit("Trellis");
    reveal_strlit("Light");
    reveal_strlit("TerminalGreen");
    reveal_strlit("StickyNotes");
    reveal_strlit("Futuristic");
    reveal_strlit("SynthWave");
    reveal_strlit("Blueprint");
    reveal_strlit("Silkscreen");
    reveal_strlit("Phosphor");
    assert("SynthWave"@[0] != "Blueprint"@[0]);
    assert("Futuristic"@[0] != "Silkscreen"@[0]);
    assert("Trellis"@.len() == 7 && "Light"@.len() == 5 && "TerminalGreen"@.len() == 13
        && "StickyNotes"@.len() == 11 && "Futuristic"@.len() == 10 && "SynthWave"@.len() == 9
        && "Blueprint"@.len() == 9 && "Silkscreen"@.len() == 10 && "Phosphor"@.len() == 8);
    match t {
        Theme::SynthWave => {
            assert("SynthWave"@ != "Blueprint"@);
        },
        Theme::Blueprint => {
            assert("Blueprint"@ != "SynthWave"@);
        },
        Theme::Silkscreen => {
            assert("Silkscreen"@ != "Futuristic"@);
        },
        _ => {},
    }
}

/// A panel placement saved as its settings value loads back unchanged.
pub proof fn law_placement_round_trip(p: Placement)
    ensures
        (if spec_placement_str(p) == "window"@ {
            Placement::Window
        } else {
            Placement::Docked
        }) == p,
{
    reveal_strlit("window");
    reveal_strlit("docked");
    assert("docked"@[0] != "window"@[0]);
}

/// Toggling a placement changes it, and toggling twice restores it.
pub proof fn law_toggle_involution(p: Placement)
    ensures
        spec_toggled(p) != p,
        spec_toggled(spec_toggled(p)) == p,
{
}


proof fn lemma_digit_char(d: int)
    requires
        0 <= d < 10,
    ensures
        is_digit(crate::text::digit_char(d)),
        !is_ws(crate::text::digit_char(d)),
        (crate::text::digit_char(d) as u32) - 48 == d,
{
}

proof fn lemma_decimal(n: nat)
    ensures
        decimal(n).len() > 0,
        all_digits(decimal(n)),
        digits_value(decimal(n)) == n,
        !is_ws(decimal(n)[0]),
        !is_ws(decimal(n).last()),
    decreases n,
{
    if n < 10 {
        lemma_digit_char(n as int);
        assert(decimal(n).drop_last() =~= Seq::<char>::empty());
        assert(digits_value(Seq::<char>::empty()) == 0);
        assert(digits_value(decimal(n)) == digits_value(decimal(n).drop_last()) * 10 + n);
    } else {
        lemma_decimal(n / 10);
        lemma_digit_char((n % 10) as int);
        let s = decimal(n);
        assert(s.drop_last() =~= decimal(n / 10));
        assert(s[0] == decimal(n / 10)[0]);
        assert(digits_value(s) == digits_value(decimal(n / 10)) * 10 + n % 10);
        assert(n == (n / 10) * 10 + n % 10);
        assert forall|i: int| 0 <= i < s.len() implies #[trigger] is_digit(s[i]) by {
            if i < s.len() - 1 {
                assert(s[i] == decimal(n / 10)[i]);
            }
        }
    }
}

proof fn lemma_trim_no_ws_ends(s: Seq<char>)
    requires
        s.len() > 0,
        !is_ws(s[0]),
        !is_ws(s.last()),
    ensures
        trim(s) == s,
{
}

/// Typing a node's id, with or without a leading `#`, finds exactly that id.
pub proof fn law_node_id_round_trip(n: u64)
    ensures
        spec_queried_node_id(decimal(n as nat)) == Some(n as nat),
        spec_queried_node_id("#"@ + decimal(n as nat)) == Some(n as nat),
{
    lemma_decimal(n as nat);
    let d = decimal(n as nat);
    lemma_trim_no_ws_ends(d);
    assert(node_id_digits(d) == d) by {
        assert(d[0] != '#') by {
            lemma_digit_char(0);
            assert(is_digit(d[0]));
        }
    }
    reveal_strlit("#");
    let h = "#"@ + d;
    assert(h[0] == '#');
    assert(h.last() == d.last());
    lemma_trim_no_ws_ends(h);
    assert(h.drop_first() =~= d);
}

proof fn lemma_trim_end_prefix(s: Seq<char>)
    ensures
        trim_end(s).len() <= s.len(),
        trim_end(s) == s.take(trim_end(s).len() as int),
    decreases s.len(),
{
    if s.len() > 0 && is_ws(s.last()) {
        lemma_trim_end_prefix(s.drop_last());
        assert(s.drop_last().take(trim_end(s).len() as int) =~= s.take(trim_end(s).len() as int));
    } else {
        assert(s.take(s.len() as int) =~= s);
    }
}

/// Eliding never makes a row longer than `max` characters plus the
/// ellipsis, leaves a short row alone, and otherwise keeps a prefix of it
/// that ends where a word does: before the last whitespace within the first
/// `max` characters, when there is one.
pub proof fn law_elide_shortens(text: Seq<char>, max: nat)
    ensures
        spec_elide(text, max).len() <= max + 1,
        text.len() <= max ==> spec_elide(text, max) == text,
        text.len() > max ==> ({
            let r = spec_elide(text, max);
            &&& r.last() == '…'
            &&& r.drop_last() == text.take(r.len() - 1)
            &&& last_ws(text.take(max as int)) matches Some(i) ==> r.len() - 1 <= i && is_ws(text[i])
        }),
{
    if text.len() > max {
        let head = text.take(max as int);
        crate::text::lemma_last_ws_bound(head);
        let cut = match crate::text::last_ws(head) {
            Some(i) => i,
            None => head.len() as int,
        };
        lemma_trim_end_prefix(head.take(cut));
        let t = trim_end(head.take(cut));
        assert(t.push('…').drop_last() =~= t);
        assert(t =~= text.take(t.len() as int));
        if let Some(i) = last_ws(head) {
            assert(head[i] == text[i]);
        }
    }
}

/// Extracting a selection puts the embed on its own line: the head is empty
/// or ends in a newline, the tail is empty or starts with one, and head,
/// selection and tail are the body again with at most those two newlines
/// added.
pub proof fn law_extract_on_own_line(chars: Seq<char>, from: int, to: int)
    requires
        0 <= from,
    ensures
        spec_split_for_extract(chars, from, to) matches Some((taken, head, tail)) ==> {
            &&& head.len() == 0 || head.last() == '\n'
            &&& tail.len() == 0 || tail[0] == '\n'
            &&& head.take(from) + taken + tail.skip(tail.len() - (chars.len() - to)) == chars
            &&& head.len() <= from + 1
            &&& tail.len() <= chars.len() - to + 1
        },
{
    if let Some((taken, head, tail)) = spec_split_for_extract(chars, from, to) {
        let h0 = chars.take(from);
        let t0 = chars.skip(to);
        if h0.len() > 0 && h0.last() != '\n' {
            assert(head =~= h0.push('\n'));
            assert(head.take(from) =~= h0);
        } else {
            assert(head.take(from) =~= h0);
        }
        if t0.len() > 0 && t0[0] != '\n' {
            assert(tail =~= seq!['\n'] + t0);
            assert(tail.skip(tail.len() - (chars.len() - to)) =~= t0);
        } else {
            assert(tail.skip(tail.len() - (chars.len() - to)) =~= t0);
        }
        assert(h0 + taken + t0 =~= chars);
    }
}

/// A usable SFTP target always names a directory: it holds a `:` and ends
/// with `/`, so the copied file lands inside it.
pub proof fn law_sftp_target_is_a_directory(target: Seq<char>)
    ensures
        spec_sftp_target(target) matches Ok(t) ==> t.len() > 0 && t.last() == '/' && t.contains(
            ':',
        ),
{
    let t = trim(target);
    if t.len() > 0 && t.contains(':') && t.last() != '/' {
        let k = choose|k: int| 0 <= k < t.len() && t[k] == ':';
        assert(t.push('/')[k] == ':');
    }
}

/// Retention keeps the newest backups: with a limit `keep > 0`, exactly
/// the backups beyond the newest `keep` are removed, each of them older (by
/// name, which orders by time) than every backup kept; with `keep == 0`
/// nothing is removed.
pub proof fn law_retention_keeps_newest(names: Seq<Seq<char>>, keep: nat)
    ensures
        keep == 0 ==> spec_retention_victims(names, keep).len() == 0,
        ({
            let c = backup_files(names);
            let v = spec_retention_victims(names, keep);
            let s = sorted_names(c);
            &&& keep > 0 && c.len() > keep ==> v.len() == c.len() - keep
            &&& c.len() <= keep ==> v.len() == 0
            &&& forall|i: int| 0 <= i < v.len() ==> c.contains(#[trigger] v[i])
            &&& forall|i: int, j: int|
                0 <= i < v.len() && v.len() <= j < s.len() ==> lex_le(#[trigger] v[i], #[trigger] s[j])
        }),
{
    let c = backup_files(names);
    let s = sorted_names(c);
    lemma_lex_total_ordering();
    c.lemma_sort_by_ensures(lex_order());
    vstd::seq_lib::to_multiset_len(c);
    vstd::seq_lib::to_multiset_len(s);
    let v = spec_retention_victims(names, keep);
    if keep > 0 && c.len() > keep {
        assert forall|i: int| 0 <= i < v.len() implies c.contains(#[trigger] v[i]) by {
            assert(v[i] == s[i]);
            assert(s.contains(s[i]));
        }
        assert forall|i: int, j: int|
            0 <= i < v.len() && v.len() <= j < s.len() implies lex_le(
            #[trigger] v[i],
            #[trigger] s[j],
        ) by {
            assert(v[i] == s[i]);
            assert(lex_order()(s[i], s[j]));
        }
    }
}

/// A snapshot cap never deletes the newest snapshot, and leaves exactly
/// `max(keep, 1)` snapshots when there were more.
pub proof fn law_history_keeps_newest(newest_first: Seq<Seq<char>>, keep: nat)
    ensures
        ({
            let v = spec_history_victims(newest_first, keep);
            let k = if keep >= 1 {
                keep
            } else {
                1
            };
            &&& newest_first.len() > k ==> v.len() == newest_first.len() - k
            &&& newest_first.len() <= k ==> v.len() == 0
            &&& forall|i: int| 0 <= i < v.len() ==> #[trigger] v[i] == newest_first[i + k]
        }),
{
}


/// Where `x` goes in the newest-first `t`: before the first entry older
/// than it.
spec fn first_older(t: Seq<DayView>, x: DayView) -> int
    decreases t.len(),
{
    if t.len() == 0 {
        0
    } else if earlier(t[0], x) {
        0
    } else {
        1 + first_older(t.drop_first(), x)
    }
}

proof fn lemma_first_older(t: Seq<DayView>, x: DayView)
    ensures
        0 <= first_older(t, x) <= t.len(),
        forall|j: int| 0 <= j < first_older(t, x) ==> !earlier(#[trigger] t[j], x),
        first_older(t, x) < t.len() ==> earlier(t[first_older(t, x)], x),
    decreases t.len(),
{
    if t.len() > 0 && !earlier(t[0], x) {
        lemma_first_older(t.drop_first(), x);
        assert forall|j: int| 0 <= j < first_older(t, x) implies !earlier(#[trigger] t[j], x) by {
            if j > 0 {
                assert(t[j] == t.drop_first()[j - 1]);
            }
        }
    }
}

/// Whether `s` runs from the newest date to the oldest.
pub open spec fn is_newest_first(s: Seq<DayView>) -> bool {
    forall|i: int, j: int| 0 <= i < j < s.len() ==> !earlier(#[trigger] s[i], #[trigger] s[j])
}

/// Importing a journal lists its entries newest first and loses or adds
/// none: the order is by date, descending, and the entries are those of the
/// file.
#[verifier::spinoff_prover]
pub proof fn law_journal_newest_first(entries: Seq<DayView>)
    ensures
        is_newest_first(sort_newest_first(entries)),
        sort_newest_first(entries).to_multiset() == entries.to_multiset(),
    decreases entries.len(),
{
    if entries.len() > 0 {
        let rest = entries.drop_last();
        let x = entries.last();
        law_journal_newest_first(rest);
        let t = sort_newest_first(rest);
        lemma_first_older(t, x);
        let p = first_older(t, x);
        lemma_insert_desc(t, p, x);
        let r = t.insert(p, x);
        assert(sort_newest_first(entries) == r);
        vstd::seq_lib::to_multiset_insert(t, p, x);
        vstd::seq_lib::to_multiset_build(rest, x);
        assert(rest.push(x) =~= entries);
        assert forall|i: int, j: int| 0 <= i < j < r.len() implies !earlier(
            #[trigger] r[i],
            #[trigger] r[j],
        ) by {
            if j < p {
                assert(r[i] == t[i] && r[j] == t[j]);
            } else if j == p {
                assert(r[i] == t[i]);
            } else if i < p {
                assert(r[i] == t[i] && r[j] == t[j - 1]);
            } else if i == p {
                assert(r[j] == t[j - 1]);
                assert(earlier(t[p], x));
                if j - 1 > p {
                    assert(!earlier(t[p], t[j - 1]));
                }
            } else {
                assert(r[i] == t[i - 1] && r[j] == t[j - 1]);
            }
        }
    } else {
        assert(sort_newest_first(entries) =~= entries);
    }
}


proof fn lemma_offerable(probed: Seq<Ipv4>)
    ensures
        offerable(probed).no_duplicates(),
        forall|a: Ipv4| #[trigger]
            offerable(probed).contains(a) <==> probed.contains(a) && is_offerable(a),
    decreases probed.len(),
{
    broadcast use vstd::seq_lib::lemma_seq_contains_after_push;

    if probed.len() > 0 {
        let rest = probed.drop_last();
        lemma_offerable(rest);
        let r = offerable(rest);
        let x = probed.last();
        assert(probed =~= rest.push(x));
        if is_offerable(x) && !r.contains(x) {
            assert forall|i: int, j: int|
                0 <= i < r.len() + 1 && 0 <= j < r.len() + 1 && i != j implies r.push(x)[i]
                != r.push(x)[j] by {
                if i < r.len() && j < r.len() {
                } else if i < r.len() {
                    assert(r.contains(r[i]));
                } else {
                    assert(r.contains(r[j]));
                }
            }
        }
    } else {
        assert(offerable(probed) =~= Seq::<Ipv4>::empty());
    }
}

proof fn lemma_with_privacy(s: Seq<Ipv4>, private: bool)
    requires
        s.no_duplicates(),
    ensures
        with_privacy(s, private).no_duplicates(),
        forall|a: Ipv4| #[trigger]
            with_privacy(s, private).contains(a) <==> s.contains(a) && is_private(a) == private,
    decreases s.len(),
{
    broadcast use vstd::seq_lib::lemma_seq_contains_after_push;

    if s.len() > 0 {
        let rest = s.drop_last();
        let x = s.last();
        assert(s =~= rest.push(x));
        assert(rest.no_duplicates()) by {
            assert forall|i: int, j: int| 0 <= i < rest.len() && 0 <= j < rest.len() && i != j
                implies rest[i] != rest[j] by {
                assert(rest[i] == s[i] && rest[j] == s[j]);
            }
        }
        lemma_with_privacy(rest, private);
        let r = with_privacy(rest, private);
        assert(!rest.contains(x)) by {
            if rest.contains(x) {
                let k = choose|k: int| 0 <= k < rest.len() && rest[k] == x;
                assert(s[k] == s[s.len() - 1]);
            }
        }
        if is_private(x) == private {
            assert(!r.contains(x));
            assert forall|i: int, j: int|
                0 <= i < r.len() + 1 && 0 <= j < r.len() + 1 && i != j implies r.push(x)[i]
                != r.push(x)[j] by {
                if i < r.len() && j < r.len() {
                } else if i < r.len() {
                    assert(r.contains(r[i]));
                } else {
                    assert(r.contains(r[j]));
                }
            }
        }
    } else {
        assert(with_privacy(s, private) =~= Seq::<Ipv4>::empty());
    }
}

/// The addresses offered for another device are the usable ones that were
/// found, each once, with every private-range address ahead of every other.
#[verifier::spinoff_prover]
pub proof fn law_ranked_addresses(probed: Seq<Ipv4>)
    ensures
        ranked(probed).no_duplicates(),
        forall|a: Ipv4| #[trigger]
            ranked(probed).contains(a) <==> probed.contains(a) && is_offerable(a),
        forall|i: int, j: int|
            0 <= i < j < ranked(probed).len() && is_private(#[trigger] ranked(probed)[j])
                ==> is_private(#[trigger] ranked(probed)[i]),
{
    let o = offerable(probed);
    lemma_offerable(probed);
    lemma_with_privacy(o, true);
    lemma_with_privacy(o, false);
    let p = with_privacy(o, true);
    let q = with_privacy(o, false);
    let r = ranked(probed);
    assert(r == p + q);
    assert forall|i: int| 0 <= i < p.len() implies is_private(#[trigger] p[i]) by {
        assert(p.contains(p[i]));
    }
    assert forall|i: int| 0 <= i < q.len() implies !is_private(#[trigger] q[i]) by {
        assert(q.contains(q[i]));
    }
    assert forall|a: Ipv4| #[trigger] r.contains(a) <==> probed.contains(a) && is_offerable(a) by {
        if r.contains(a) {
            let k = choose|k: int| 0 <= k < r.len() && r[k] == a;
            if k < p.len() {
                assert(p.contains(a));
            } else {
                assert(q[k - p.len()] == a);
                assert(q.contains(a));
            }
        }
        if probed.contains(a) && is_offerable(a) {
            assert(o.contains(a));
            if is_private(a) {
                assert(p.contains(a));
                let k = choose|k: int| 0 <= k < p.len() && p[k] == a;
                assert(r[k] == a);
            } else {
                assert(q.contains(a));
                let k = choose|k: int| 0 <= k < q.len() && q[k] == a;
                assert(r[k + p.len()] == a);
            }
        }
    }
    assert forall|i: int, j: int| 0 <= i < r.len() && 0 <= j < r.len() && i != j implies r[i]
        != r[j] by {
        if i < p.len() && j < p.len() {
            assert(r[i] == p[i] && r[j] == p[j]);
        } else if i >= p.len() && j >= p.len() {
            assert(r[i] == q[i - p.len()] && r[j] == q[j - p.len()]);
        } else if i < p.len() {
            assert(is_private(r[i]) && !is_private(r[j]));
        } else {
            assert(!is_private(r[i]) && is_private(r[j]));
        }
    }
    assert forall|i: int, j: int|
        0 <= i < j < r.len() && is_private(#[trigger] r[j]) implies is_private(#[trigger] r[i]) by {
        if j >= p.len() {
            assert(!is_private(q[j - p.len()]));
        }
    }
}


/// `e` places each character of `q` at a position of `t`, in order.
pub open spec fn is_embedding(q: Seq<char>, t: Seq<char>, e: Seq<int>) -> bool {
    &&& e.len() == q.len()
    &&& forall|i: int| 0 <= i < e.len() ==> 0 <= #[trigger] e[i] < t.len() && t[e[i]] == q[i]
    &&& forall|i: int, j: int| 0 <= i < j < e.len() ==> #[trigger] e[i] < #[trigger] e[j]
}

/// Whether every character of `q` appears in `t`, in order.
pub open spec fn in_order(q: Seq<char>, t: Seq<char>) -> bool {
    exists|e: Seq<int>| is_embedding(q, t, e)
}

proof fn lemma_greedy_embeds(q: Seq<char>, t: Seq<char>, off: int) -> (e: Seq<int>)
    requires
        greedy_end(q, t, off) is Some,
    ensures
        is_embedding(q, t, e),
        q.len() > 0,
        e.last() + off == greedy_end(q, t, off)->0,
    decreases t.len(),
{
    if t[0] == q[0] {
        if q.len() == 1 {
            seq![0int]
        } else {
            let e1 = lemma_greedy_embeds(q.drop_first(), t.drop_first(), off + 1);
            let e = seq![0int] + e1.map_values(|x: int| x + 1);
            assert forall|i: int| 0 <= i < e.len() implies 0 <= #[trigger] e[i] < t.len() && t[e[i]]
                == q[i] by {
                if i > 0 {
                    assert(e[i] == e1[i - 1] + 1);
                    assert(t[e[i]] == t.drop_first()[e1[i - 1]]);
                }
            }
            assert forall|i: int, j: int| 0 <= i < j < e.len() implies #[trigger] e[i]
                < #[trigger] e[j] by {
                assert(e[j] == e1[j - 1] + 1);
                if i > 0 {
                    assert(e[i] == e1[i - 1] + 1);
                }
            }
            e
        }
    } else {
        let e1 = lemma_greedy_embeds(q, t.drop_first(), off + 1);
        let e = e1.map_values(|x: int| x + 1);
        assert forall|i: int| 0 <= i < e.len() implies 0 <= #[trigger] e[i] < t.len() && t[e[i]]
            == q[i] by {
            assert(t[e[i]] == t.drop_first()[e1[i]]);
        }
        assert forall|i: int, j: int| 0 <= i < j < e.len() implies #[trigger] e[i]
            < #[trigger] e[j] by {
            assert(e1[i] < e1[j]);
        }
        e
    }
}

proof fn lemma_embedding_greedy(q: Seq<char>, t: Seq<char>, off: int, e: Seq<int>)
    requires
        is_embedding(q, t, e),
        q.len() > 0,
    ensures
        greedy_end(q, t, off) is Some,
        greedy_end(q, t, off)->0 <= off + e.last(),
    decreases t.len(),
{
    assert(0 <= e[0] < t.len());
    if t[0] == q[0] {
        if q.len() > 1 {
            let e1 = e.drop_first().map_values(|x: int| x - 1);
            assert forall|i: int| 0 <= i < e1.len() implies 0 <= #[trigger] e1[i]
                < t.drop_first().len() && t.drop_first()[e1[i]] == q.drop_first()[i] by {
                assert(e[0] < e[i + 1]);
                assert(e1[i] == e[i + 1] - 1);
            }
            assert forall|i: int, j: int| 0 <= i < j < e1.len() implies #[trigger] e1[i]
                < #[trigger] e1[j] by {
                assert(e[i + 1] < e[j + 1]);
            }
            lemma_embedding_greedy(q.drop_first(), t.drop_first(), off + 1, e1);
        }
    } else {
        assert(e[0] != 0);
        let e1 = e.map_values(|x: int| x - 1);
        assert forall|i: int| 0 <= i < e1.len() implies 0 <= #[trigger] e1[i]
            < t.drop_first().len() && t.drop_first()[e1[i]] == q[i] by {
            if i > 0 {
                assert(e[0] < e[i]);
            }
            assert(e1[i] == e[i] - 1);
        }
        assert forall|i: int, j: int| 0 <= i < j < e1.len() implies #[trigger] e1[i]
            < #[trigger] e1[j] by {
            assert(e[i] < e[j]);
        }
        lemma_embedding_greedy(q, t.drop_first(), off + 1, e1);
    }
}

/// The subsequence score is given exactly when the query's characters all
/// appear in the text in order; it is then the position where the earliest
/// such match ends: reached by one placement, and no later than the end of
/// any other.
pub proof fn law_subseq_score_in_order(q: Seq<char>, t: Seq<char>)
    ensures
        spec_subseq_score(q, t) is Some <==> in_order(q, t),
        forall|e: Seq<int>|
            #[trigger] is_embedding(q, t, e) && q.len() > 0 ==> spec_subseq_score(q, t)->0
                <= e.last(),
        spec_subseq_score(q, t) is Some && q.len() > 0 ==> exists|e: Seq<int>|
            #[trigger] is_embedding(q, t, e) && e.last() == spec_subseq_score(q, t)->0,
{
    if q.len() == 0 {
        assert(is_embedding(q, t, Seq::<int>::empty()));
    } else {
        if spec_subseq_score(q, t) is Some {
            let e = lemma_greedy_embeds(q, t, 0);
            assert(is_embedding(q, t, e));
        }
        assert forall|e: Seq<int>| #[trigger] is_embedding(q, t, e) implies spec_subseq_score(q, t)
            is Some && spec_subseq_score(q, t)->0 <= e.last() by {
            lemma_embedding_greedy(q, t, 0, e);
        }
    }
}

proof fn lemma_find_from_matches(t: Seq<char>, p: Seq<char>, i: int)
    ensures
        find_from(t, p, i) matches Some(k) ==> matches_at(t, p, k),
    decreases t.len() - i,
{
    if !(i < 0 || i + p.len() > t.len()) && !matches_at(t, p, i) && i < t.len() {
        lemma_find_from_matches(t, p, i + 1);
    }
}

proof fn lemma_substring_in_order(t: Seq<char>, p: Seq<char>)
    requires
        find_from(t, p, 0) is Some,
    ensures
        in_order(p, t),
{
    lemma_find_from_matches(t, p, 0);
    let k = find_from(t, p, 0)->0;
    let e = Seq::new(p.len(), |j: int| k + j);
    assert forall|i: int| 0 <= i < e.len() implies 0 <= #[trigger] e[i] < t.len() && t[e[i]]
        == p[i] by {
        assert(t.subrange(k, k + p.len())[i] == p[i]);
    }
    assert(is_embedding(p, t, e));
}

/// A node matches a non-empty palette query exactly when the query's
/// characters appear in order in its title or in its path; an empty query
/// matches every node.
#[verifier::spinoff_prover]
pub proof fn law_fuzzy_matches_in_order(query: Seq<char>, title: Seq<char>, hay: Seq<char>)
    ensures
        spec_fuzzy_score(query, title, hay) is Some <==> (query.len() == 0 || in_order(query, title)
            || in_order(query, hay)),
{
    law_subseq_score_in_order(query, title);
    law_subseq_score_in_order(query, hay);
    if query.len() > 0 {
        if byte_find(title, query) is Some {
            lemma_substring_in_order(title, query);
        }
        if find_from(hay, query, 0) is Some {
            lemma_substring_in_order(hay, query);
        }
    }
}


proof fn lemma_trim_start_head(s: Seq<char>)
    ensures
        trim_start(s).len() > 0 ==> !is_ws(trim_start(s)[0]),
    decreases s.len(),
{
    if s.len() > 0 && is_ws(s[0]) {
        lemma_trim_start_head(s.drop_first());
    }
}

proof fn lemma_trim_end_keeps_head(s: Seq<char>)
    requires
        s.len() > 0,
        !is_ws(s[0]),
    ensures
        trim_end(s).len() > 0,
        trim_end(s)[0] == s[0],
    decreases s.len(),
{
    if s.len() > 1 && is_ws(s.last()) {
        lemma_trim_end_keeps_head(s.drop_last());
    }
}

/// Trimming keeps a string that starts with a visible character non-blank,
/// and a non-blank trimmed string starts with a visible character.
proof fn lemma_trim_head(s: Seq<char>)
    ensures
        s.len() > 0 && !is_ws(s[0]) ==> trim(s).len() > 0,
        trim(s).len() > 0 ==> !is_ws(trim(s)[0]),
{
    lemma_trim_start_head(s);
    lemma_trim_end_prefix(trim_start(s));
    if trim_start(s).len() > 0 {
        lemma_trim_end_keeps_head(trim_start(s));
    }
}

proof fn lemma_first_label_visible(ls: Seq<Seq<char>>)
    ensures
        first_label(ls).len() > 0 ==> !is_ws(first_label(ls)[0]),
    decreases ls.len(),
{
    if ls.len() > 0 {
        lemma_trim_head(strip_marks(ls[0]));
        if clean_line(ls[0]).len() == 0 {
            lemma_first_label_visible(ls.drop_first());
        }
    }
}

/// A palette row never reads blank: a card is called by its title when that
/// has any visible character, else by its first non-empty body line (at most
/// sixty characters and an ellipsis), else "(untitled card)".
pub proof fn law_card_label_is_visible(title: Seq<char>, body: Seq<char>)
    ensures
        trim(spec_card_label(title, body)).len() > 0,
        trim(title).len() == 0 ==> spec_card_label(title, body).len() <= 61,
{
    if trim(title).len() > 0 {
    } else {
        let line = first_label(lines(body));
        lemma_first_label_visible(lines(body));
        let r = spec_card_label(title, body);
        if line.len() == 0 {
            reveal_strlit("(untitled card)");
            assert(r[0] == '(');
        } else {
            assert(r[0] == line[0]);
        }
        lemma_trim_head(r);
    }
}


/// The lines of `ls` that carry text (neither blank nor a dash separator),
/// in order, each without its trailing whitespace.
pub open spec fn content_lines(ls: Seq<Seq<char>>) -> Seq<Seq<char>>
    decreases ls.len(),
{
    if ls.len() == 0 {
        seq![]
    } else if is_break_line(ls[0]) {
        content_lines(ls.drop_first())
    } else {
        seq![trim_end(ls[0])] + content_lines(ls.drop_first())
    }
}

proof fn lemma_blocks_from(ls: Seq<Seq<char>>, cur: Seq<Seq<char>>)
    ensures
        blocks_from(ls, cur).flatten() == cur + content_lines(ls),
        forall|i: int| 0 <= i < blocks_from(ls, cur).len() ==> #[trigger] blocks_from(ls, cur)[i].len() > 0,
    decreases ls.len(),
{
    let b = blocks_from(ls, cur);
    if ls.len() == 0 {
        if cur.len() > 0 {
            seq![cur].lemma_flatten_one_element();
        } else {
            assert(b.flatten() =~= Seq::<Seq<char>>::empty());
        }
        assert(cur + content_lines(ls) =~= cur);
    } else if is_break_line(ls[0]) {
        let rest = blocks_from(ls.drop_first(), seq![]);
        lemma_blocks_from(ls.drop_first(), seq![]);
        if cur.len() > 0 {
            assert(b == seq![cur] + rest);
            assert((seq![cur] + rest).drop_first() =~= rest);
            assert forall|i: int| 0 <= i < b.len() implies #[trigger] b[i].len() > 0 by {
                if i > 0 {
                    assert(b[i] == rest[i - 1]);
                }
            }
        } else {
            assert(b =~= rest);
        }
        assert(Seq::<Seq<char>>::empty() + content_lines(ls.drop_first()) =~= content_lines(
            ls.drop_first(),
        ));
    } else {
        lemma_blocks_from(ls.drop_first(), cur.push(trim_end(ls[0])));
        assert(cur.push(trim_end(ls[0])) + content_lines(ls.drop_first()) =~= cur + (seq![
            trim_end(ls[0]),
        ] + content_lines(ls.drop_first())));
    }
}

/// Splitting lines into blocks loses and invents nothing: the blocks, read
/// one after another, are exactly the lines that carry text, and no block is
/// empty.
pub proof fn law_blocks_keep_every_line(ls: Seq<Seq<char>>)
    ensures
        spec_split_blocks(ls).flatten() == content_lines(ls),
        forall|i: int| 0 <= i < spec_split_blocks(ls).len() ==> #[trigger] spec_split_blocks(ls)[i].len() > 0,
{
    lemma_blocks_from(ls, seq![]);
    assert(Seq::<Seq<char>>::empty() + content_lines(ls) =~= content_lines(ls));
}


/// `v` written with exactly `w` digits, as the stamp writes its fields.
spec fn field(v: int, w: nat) -> Seq<char> {
    zero_pad(decimal(v as nat), w)
}

proof fn lemma_field(v: int, w: nat)
    requires
        w >= 1,
        0 <= v < pow10(w),
    ensures
        field(v, w).len() == w,
        all_digits(field(v, w)),
        digits_value(field(v, w)) == v,
{
    lemma_decimal(v as nat);
    lemma_decimal_len(v as nat, w);
    lemma_zero_pad_digits(decimal(v as nat), w);
}

proof fn lemma_field_order(a: int, b: int, w: nat)
    requires
        w >= 1,
        0 <= a < b < pow10(w),
    ensures
        lex_lt(field(a, w), field(b, w)),
        field(a, w).len() == field(b, w).len(),
{
    lemma_field(a, w);
    lemma_field(b, w);
    lemma_digits_order(field(a, w), field(b, w));
}

/// Where two stamps first differ, in a field of one width, decides their
/// order.
proof fn lemma_first_difference(
    pre: Seq<char>,
    xa: Seq<char>,
    xb: Seq<char>,
    ra: Seq<char>,
    rb: Seq<char>,
)
    requires
        xa.len() == xb.len(),
        lex_lt(xa, xb),
    ensures
        lex_lt(pre + xa + ra, pre + xb + rb),
{
    lemma_lex_lt_prefix(pre, xa, xb);
    lemma_lex_lt_extend(pre + xa, pre + xb, ra, rb);
}

/// The date part `YYYYMMDD` of a stamp.
spec fn date_field(c: (int, int, int)) -> Seq<char> {
    field(c.0, 4) + field(c.1, 2) + field(c.2, 2)
}

/// The time part `HHMMSS` of a stamp, for `r` seconds into the day.
spec fn time_field(r: int) -> Seq<char> {
    field(r / 3600, 2) + field((r % 3600) / 60, 2) + field(r % 60, 2)
}

proof fn lemma_pow10_small()
    ensures
        pow10(2) == 100,
        pow10(4) == 10000,
{
    reveal_with_fuel(pow10, 5);
}

#[verifier::spinoff_prover]
proof fn lemma_date_field_order(ca: (int, int, int), cb: (int, int, int))
    requires
        date_lt(ca, cb),
        0 <= ca.0,
        cb.0 < 10000,
        1 <= ca.1 <= 12,
        1 <= cb.1 <= 12,
        1 <= ca.2 <= 31,
        1 <= cb.2 <= 31,
    ensures
        lex_lt(date_field(ca), date_field(cb)),
        date_field(ca).len() == date_field(cb).len(),
{
    lemma_pow10_small();
    lemma_field(ca.0, 4);
    lemma_field(cb.0, 4);
    lemma_field(ca.1, 2);
    lemma_field(cb.1, 2);
    lemma_field(ca.2, 2);
    lemma_field(cb.2, 2);
    let e = Seq::<char>::empty();
    if ca.0 < cb.0 {
        lemma_field_order(ca.0, cb.0, 4);
        lemma_first_difference(e, field(ca.0, 4), field(cb.0, 4), field(ca.1, 2) + field(ca.2, 2),
            field(cb.1, 2) + field(cb.2, 2));
        assert(date_field(ca) =~= e + field(ca.0, 4) + (field(ca.1, 2) + field(ca.2, 2)));
        assert(date_field(cb) =~= e + field(cb.0, 4) + (field(cb.1, 2) + field(cb.2, 2)));
    } else if ca.1 < cb.1 {
        lemma_field_order(ca.1, cb.1, 2);
        lemma_first_difference(field(ca.0, 4), field(ca.1, 2), field(cb.1, 2), field(ca.2, 2),
            field(cb.2, 2));
    } else {
        lemma_field_order(ca.2, cb.2, 2);
        lemma_first_difference(field(ca.0, 4) + field(ca.1, 2), field(ca.2, 2), field(cb.2, 2), e,
            e);
        assert(date_field(ca) =~= field(ca.0, 4) + field(ca.1, 2) + field(ca.2, 2) + e);
        assert(date_field(cb) =~= field(cb.0, 4) + field(cb.1, 2) + field(cb.2, 2) + e);
    }
}

proof fn lemma_time_parts(r: int)
    requires
        0 <= r < 86400,
    ensures
        r == (r / 3600) * 3600 + ((r % 3600) / 60) * 60 + r % 60,
        0 <= r / 3600 < 24,
        0 <= (r % 3600) / 60 < 60,
        0 <= r % 60 < 60,
{
    vstd::arithmetic::div_mod::lemma_fundamental_div_mod(r, 3600);
    vstd::arithmetic::div_mod::lemma_fundamental_div_mod(r % 3600, 60);
    vstd::arithmetic::div_mod::lemma_mod_mod(r, 60, 60);
    assert(r % 60 == (r % 3600) % 60);
}

#[verifier::spinoff_prover]
proof fn lemma_time_field_order(ra: int, rb: int)
    requires
        0 <= ra < rb < 86400,
    ensures
        lex_lt(time_field(ra), time_field(rb)),
        time_field(ra).len() == time_field(rb).len(),
{
    lemma_pow10_small();
    lemma_time_parts(ra);
    lemma_time_parts(rb);
    let (ha, ia, sa) = (ra / 3600, (ra % 3600) / 60, ra % 60);
    let (hb, ib, sb) = (rb / 3600, (rb % 3600) / 60, rb % 60);
    lemma_field(ha, 2);
    lemma_field(hb, 2);
    lemma_field(ia, 2);
    lemma_field(ib, 2);
    lemma_field(sa, 2);
    lemma_field(sb, 2);
    let e = Seq::<char>::empty();
    if ha < hb {
        lemma_field_order(ha, hb, 2);
        lemma_first_difference(e, field(ha, 2), field(hb, 2), field(ia, 2) + field(sa, 2),
            field(ib, 2) + field(sb, 2));
        assert(time_field(ra) =~= e + field(ha, 2) + (field(ia, 2) + field(sa, 2)));
        assert(time_field(rb) =~= e + field(hb, 2) + (field(ib, 2) + field(sb, 2)));
    } else if ia < ib {
        assert(ha == hb);
        lemma_field_order(ia, ib, 2);
        lemma_first_difference(field(ha, 2), field(ia, 2), field(ib, 2), field(sa, 2), field(sb, 2));
    } else {
        assert(ha == hb && ia == ib);
        lemma_field_order(sa, sb, 2);
        lemma_first_difference(field(ha, 2) + field(ia, 2), field(sa, 2), field(sb, 2), e, e);
        assert(time_field(ra) =~= field(ha, 2) + field(ia, 2) + field(sa, 2) + e);
        assert(time_field(rb) =~= field(hb, 2) + field(ib, 2) + field(sb, 2) + e);
    }
}

proof fn lemma_stamp_shape(secs: nat)
    ensures
        spec_stamp(secs) == date_field(civil_from_days(secs / 86400)) + (seq!['-'] + time_field(
            (secs % 86400) as int,
        )),
        spec_stamp(secs) == date_field(civil_from_days(secs / 86400)) + seq!['-'] + time_field(
            (secs % 86400) as int,
        ),
{
    let c = civil_from_days(secs / 86400);
    let r = (secs % 86400) as int;
    assert(spec_stamp(secs) =~= date_field(c) + (seq!['-'] + time_field(r)));
    assert(spec_stamp(secs) =~= date_field(c) + seq!['-'] + time_field(r));
}

/// Backup and snapshot names sort by time: of two instants, the later
/// stamps a name that sorts after the earlier's, as long as the year still
/// has four digits.
#[verifier::spinoff_prover]
pub proof fn law_stamps_sort_by_time(a: nat, b: nat)
    requires
        a < b,
        civil_from_days(b / 86400).0 < 10000,
    ensures
        lex_lt(spec_stamp(a), spec_stamp(b)),
{
    let da = a / 86400;
    let db = b / 86400;
    let ra: int = (a % 86400) as int;
    let rb: int = (b % 86400) as int;
    let ca = civil_from_days(da);
    let cb = civil_from_days(db);
    lemma_civil_ranges(da);
    lemma_civil_ranges(db);
    vstd::arithmetic::div_mod::lemma_fundamental_div_mod(a as int, 86400);
    vstd::arithmetic::div_mod::lemma_fundamental_div_mod(b as int, 86400);
    lemma_stamp_shape(a);
    lemma_stamp_shape(b);
    let dash = seq!['-'];
    if da < db {
        lemma_civil_monotone(da, db);
        lemma_date_field_order(ca, cb);
        lemma_lex_lt_extend(date_field(ca), date_field(cb), dash + time_field(ra), dash
            + time_field(rb));
    } else {
        assert(da == db);
        lemma_time_field_order(ra, rb);
        lemma_lex_lt_prefix(date_field(ca) + dash, time_field(ra), time_field(rb));
    }
}


/// An API key is twice as many lower-case hexadecimal digits as it has
/// random bytes: 48 for the 24 a key is made from.
pub proof fn law_key_is_lower_hex(b: Seq<u8>)
    ensures
        hex(b).len() == 2 * b.len(),
        forall|i: int|
            0 <= i < hex(b).len() ==> ('0' <= #[trigger] hex(b)[i] <= '9' || 'a' <= hex(b)[i]
                <= 'f'),
    decreases b.len(),
{
    if b.len() > 0 {
        let rest = b.drop_last();
        law_key_is_lower_hex(rest);
        let x = b.last();
        let hi = (x / 16) as int;
        let lo = (x % 16) as int;
        assert forall|i: int| 0 <= i < hex(b).len() implies ('0' <= #[trigger] hex(b)[i] <= '9'
            || 'a' <= hex(b)[i] <= 'f') by {
            if i < hex(rest).len() {
                assert(hex(b)[i] == hex(rest)[i]);
            } else if i == hex(rest).len() {
                assert(hex(b)[i] == hex_digit(hi));
            } else {
                assert(hex(b)[i] == hex_digit(lo));
            }
        }
    }
}

/// Version history lists snapshots newest first: every snapshot name in
/// the directory once, in descending name (and so time) order.
pub proof fn law_history_lists_newest_first(names: Seq<Seq<char>>)
    ensures
        ({
            let r = spec_newest_first(names);
            &&& r.to_multiset() == snapshot_names(names).to_multiset()
            &&& forall|i: int, j: int| 0 <= i < j < r.len() ==> lex_le(#[trigger] r[j], #[trigger] r[i])
        }),
{
    let c = snapshot_names(names);
    let s = sorted_names(c);
    lemma_lex_total_ordering();
    c.lemma_sort_by_ensures(lex_order());
    s.lemma_reverse_to_multiset();
    let r = spec_newest_first(names);
    assert forall|i: int, j: int| 0 <= i < j < r.len() implies lex_le(#[trigger] r[j], #[trigger] r[i]) by {
        let n = s.len() as int;
        assert(r[i] == s[n - 1 - i] && r[j] == s[n - 1 - j]);
        assert(lex_order()(s[n - 1 - j], s[n - 1 - i]));
    }
}


/// The link-handler check reads back the binary that registration wrote:
/// the entry made for `exe` names `exe` again, for a path with no line break,
/// no ` %` (where the arguments begin) and no surrounding whitespace.
#[verifier::spinoff_prover]
pub proof fn law_handler_entry_round_trip(exe: Seq<char>, scheme: Seq<char>)
    requires
        exe.len() > 0,
        forall|k: int| 0 <= k < exe.len() ==> exe[k] != '\n',
        forall|k: int| 0 <= k < exe.len() - 1 && #[trigger] exe[k] == ' ' ==> exe[k + 1] != '%',
        !is_ws(exe[0]),
        !is_ws(exe.last()),
    ensures
        spec_desktop_exec_path(spec_desktop_entry(exe, scheme)) == Some(exe),
{
    reveal_strlit("[Desktop Entry]\nType=Application\nName=Trellis link handler\nExec=");
    reveal_strlit(" %u\nNoDisplay=true\nTerminal=false\nMimeType=x-scheme-handler/");
    reveal_strlit(";\n");
    reveal_strlit("[Desktop Entry]");
    reveal_strlit("Type=Application");
    reveal_strlit("Name=Trellis link handler");
    reveal_strlit("Exec=");
    reveal_strlit(" %u");
    reveal_strlit(" %");
    reveal_strlit("NoDisplay=true\nTerminal=false\nMimeType=x-scheme-handler/");
    let nl = seq!['\n'];
    let a = "[Desktop Entry]"@;
    let b = "Type=Application"@;
    let c = "Name=Trellis link handler"@;
    let x = "Exec="@ + exe + " %u"@;
    let rest = "NoDisplay=true\nTerminal=false\nMimeType=x-scheme-handler/"@ + scheme + ";\n"@;
    let head = "[Desktop Entry]\nType=Application\nName=Trellis link handler\nExec="@;
    let tail = " %u\nNoDisplay=true\nTerminal=false\nMimeType=x-scheme-handler/"@;
    assert(head =~= a + nl + b + nl + c + nl + "Exec="@) by {
        assert forall|i: int| 0 <= i < head.len() implies head[i] == (a + nl + b + nl + c + nl
            + "Exec="@)[i] by {
            assert(0 <= i < 64);
        }
    }
    assert(tail =~= " %u"@ + nl + "NoDisplay=true\nTerminal=false\nMimeType=x-scheme-handler/"@) by {
        assert forall|i: int| 0 <= i < tail.len() implies tail[i] == (" %u"@ + nl
            + "NoDisplay=true\nTerminal=false\nMimeType=x-scheme-handler/"@)[i] by {
            assert(0 <= i < 60);
        }
    }
    let e = spec_desktop_entry(exe, scheme);
    assert(e =~= a + nl + (b + nl + (c + nl + (x + nl + rest))));
    assert forall|k: int| 0 <= k < a.len() implies a[k] != '\n' by {
        assert(0 <= k < 15);
    }
    assert forall|k: int| 0 <= k < b.len() implies b[k] != '\n' by {
        assert(0 <= k < 16);
    }
    assert forall|k: int| 0 <= k < c.len() implies c[k] != '\n' by {
        assert(0 <= k < 25);
    }
    assert forall|k: int| 0 <= k < x.len() implies x[k] != '\n' by {
        if k < 5 {
            assert(x[k] == "Exec="@[k]);
        } else if k < 5 + exe.len() {
            assert(x[k] == exe[k - 5]);
        } else {
            assert(x[k] == " %u"@[k - 5 - exe.len()]);
        }
    }
    lemma_lines_cons(x, rest);
    lemma_lines_cons(c, x + nl + rest);
    lemma_lines_cons(b, c + nl + (x + nl + rest));
    lemma_lines_cons(a, b + nl + (c + nl + (x + nl + rest)));
    let ls = lines(e);
    assert(ls =~= seq![a] + (seq![b] + (seq![c] + (seq![x] + lines(rest)))));
    assert(ls[0] == a && ls.drop_first()[0] == b && ls.drop_first().drop_first()[0] == c);
    assert(ls.drop_first().drop_first().drop_first()[0] == x);
    assert(!starts_with(a, "Exec="@)) by {
        assert(a[0] != "Exec="@[0]);
        if a.len() >= 5 {
            assert(a.take(5)[0] == a[0]);
        }
    }
    assert(!starts_with(b, "Exec="@)) by {
        assert(b.take(5)[0] == b[0]);
    }
    assert(!starts_with(c, "Exec="@)) by {
        assert(c.take(5)[0] == c[0]);
    }
    assert(starts_with(x, "Exec="@)) by {
        assert(x.take(5) =~= "Exec="@);
    }
    let l1 = ls.drop_first();
    let l2 = l1.drop_first();
    let l3 = l2.drop_first();
    assert(exec_value(l3) == Some(x.skip(5)));
    assert(exec_value(l2) == exec_value(l3));
    assert(exec_value(l1) == exec_value(l2));
    assert(exec_value(ls) == exec_value(l1));
    let v = x.skip(5);
    assert(v =~= exe + " %u"@);
    let m = " %"@;
    assert(matches_at(v, m, exe.len() as int)) by {
        assert(v.subrange(exe.len() as int, exe.len() as int + 2) =~= m);
    }
    assert forall|j: int| 0 <= j < exe.len() implies !matches_at(v, m, j) by {
        if matches_at(v, m, j) {
            assert(v.subrange(j, j + 2)[0] == m[0]);
            assert(v.subrange(j, j + 2)[1] == m[1]);
            if j + 1 < exe.len() {
                assert(v[j] == exe[j] && v[j + 1] == exe[j + 1]);
            } else {
                assert(v[j + 1] == " %u"@[0]);
            }
        }
    }
    lemma_find_from_first(v, m, 0, exe.len() as int);
    assert(before(v, m) =~= exe);
    lemma_trim_no_ws_ends(exe);
}


/// Whatever the saved settings say, history stays on and bounded: at least
/// one snapshot and at most a hundred are kept, taken at least a minute and
/// at most a day apart.
pub proof fn law_history_settings_bounded(keep: Option<Seq<char>>, gap: Option<Seq<char>>)
    ensures
        1 <= spec_history_keep(keep) <= 100,
        1 <= spec_history_gap_mins(gap) <= 1440,
{
}


/// Whether an entry is dated `(y, m, d)`.
pub open spec fn on_day(y: int, m: nat, d: nat) -> spec_fn(DayView) -> bool {
    |e: DayView| e.0 == y && e.1 == m && e.2 == d
}

proof fn lemma_filter_none(s: Seq<DayView>, pred: spec_fn(DayView) -> bool)
    requires
        forall|i: int| 0 <= i < s.len() ==> !pred(#[trigger] s[i]),
    ensures
        s.filter(pred) == Seq::<DayView>::empty(),
    decreases s.len(),
{
    reveal(Seq::filter);
    if s.len() > 0 {
        assert forall|i: int| 0 <= i < s.drop_last().len() implies !pred(#[trigger] s.drop_last()[i]) by {
            assert(s.drop_last()[i] == s[i]);
        }
        lemma_filter_none(s.drop_last(), pred);
        assert(!pred(s[s.len() - 1]));
    }
}

/// Importing a journal keeps entries of one date in file order: the entries
/// of any day appear in the result exactly as they do in the file.
#[verifier::spinoff_prover]
pub proof fn law_journal_same_day_keeps_file_order(entries: Seq<DayView>, y: int, m: nat, d: nat)
    ensures
        sort_newest_first(entries).filter(on_day(y, m, d)) == entries.filter(on_day(y, m, d)),
    decreases entries.len(),
{
    reveal(Seq::filter);
    let pred = on_day(y, m, d);
    if entries.len() == 0 {
        assert(sort_newest_first(entries) =~= entries);
    } else {
        let rest = entries.drop_last();
        let x = entries.last();
        law_journal_same_day_keeps_file_order(rest, y, m, d);
        law_journal_newest_first(rest);
        let t = sort_newest_first(rest);
        lemma_first_older(t, x);
        let p = first_older(t, x);
        lemma_insert_desc(t, p, x);
        assert(sort_newest_first(entries) == t.insert(p, x));
        assert(t.insert(p, x) =~= t.take(p) + (seq![x] + t.skip(p)));
        assert(t =~= t.take(p) + t.skip(p));
        Seq::filter_distributes_over_add(t.take(p), seq![x] + t.skip(p), pred);
        Seq::filter_distributes_over_add(seq![x], t.skip(p), pred);
        Seq::filter_distributes_over_add(t.take(p), t.skip(p), pred);
        assert(seq![x].drop_last() =~= Seq::<DayView>::empty());
        assert(entries =~= rest.push(x));
        assert(entries.drop_last() == rest && entries.last() == x);
        if pred(x) {
            assert forall|i: int| 0 <= i < t.skip(p).len() implies !pred(#[trigger] t.skip(p)[i]) by {
                assert(t.skip(p)[i] == t[p + i]);
                assert(earlier(t[p], x));
                if i > 0 {
                    assert(!earlier(t[p], t[p + i]));
                }
            }
            lemma_filter_none(t.skip(p), pred);
            assert(t.filter(pred) =~= t.take(p).filter(pred));
            assert(seq![x].filter(pred) =~= seq![x]);
            assert(t.take(p).filter(pred) + (seq![x] + Seq::<DayView>::empty()) =~= t.filter(
                pred,
            ).push(x));
        } else {
            assert(seq![x].last() == x);
            assert(seq![x].drop_last().filter(pred) =~= Seq::<DayView>::empty());
            assert(seq![x].filter(pred) =~= Seq::<DayView>::empty());
            assert(t.take(p).filter(pred) + (Seq::<DayView>::empty() + t.skip(p).filter(pred))
                =~= t.filter(pred));
        }
    }
}


/// Restart looks for the running binary first, with a ` (deleted)` marker
/// taken off, and falls back to `argv[0]` only when that is a path: a bare
/// program name, which would be a `PATH` lookup, is never a candidate.
pub proof fn law_restart_candidates(current: Option<Seq<char>>, argv0: Option<Seq<char>>, p: Seq<char>)
    ensures
        ({
            let c = exe_candidates(current, argv0);
            &&& forall|i: int|
                0 <= i < c.len() ==> (current is Some && #[trigger] c[i] == strip_deleted(
                    current->0,
                )) || (argv0 is Some && c[i] == argv0->0 && (argv0->0).contains('/'))
            &&& current is Some ==> c.len() > 0 && c[0] == strip_deleted(current->0)
        }),
        strip_deleted(p + " (deleted)"@) == p,
{
    reveal_strlit(" (deleted)");
    let q = p + " (deleted)"@;
    assert(q.skip(q.len() - 10) =~= " (deleted)"@);
    assert(ends_with(q, " (deleted)"@));
    assert(q.take(q.len() - 10) =~= p);
}


proof fn lemma_ranks_before_order(a: HitView, b: HitView, c: HitView)
    ensures
        !ranks_before(a, a),
        ranks_before(a, b) && ranks_before(b, c) ==> ranks_before(a, c),
        !ranks_before(a, b) && !ranks_before(b, a) ==> a.6 == b.6,
{
    if ranks_before(a, b) && ranks_before(b, c) && a.6 == c.6 && encode_utf8(a.5).len() == encode_utf8(
        c.5,
    ).len() {
        if lex_lt(a.4, b.4) && lex_lt(b.4, c.4) {
            lemma_lex_trans(a.4, b.4, c.4);
            if a.4 == c.4 {
                lemma_lex_antisym(a.4, b.4);
            }
        }
    }
}

/// Whether rows run in rank order.
pub open spec fn rank_sorted(t: Seq<HitView>) -> bool {
    forall|i: int, j: int| 0 <= i < j < t.len() ==> !ranks_before(#[trigger] t[j], #[trigger] t[i])
}

proof fn lemma_insert_pos(t: Seq<HitView>, x: HitView, i: int)
    requires
        0 <= i <= t.len(),
    ensures
        i <= insert_pos(t, x, i) <= t.len(),
        forall|k: int| i <= k < insert_pos(t, x, i) ==> !ranks_before(x, #[trigger] t[k]),
        insert_pos(t, x, i) < t.len() ==> ranks_before(x, t[insert_pos(t, x, i)]),
    decreases t.len() - i,
{
    if i < t.len() && !ranks_before(x, t[i]) {
        lemma_insert_pos(t, x, i + 1);
    }
}

proof fn lemma_ranked_rows(s: Seq<HitView>)
    ensures
        rank_sorted(ranked_rows(s)),
        ranked_rows(s).to_multiset() == s.to_multiset(),
    decreases s.len(),
{
    if s.len() == 0 {
        assert(ranked_rows(s) =~= s);
    } else {
        let rest = s.drop_last();
        let x = s.last();
        lemma_ranked_rows(rest);
        let t = ranked_rows(rest);
        lemma_insert_pos(t, x, 0);
        let p = insert_pos(t, x, 0);
        let r = t.insert(p, x);
        assert(ranked_rows(s) == r);
        vstd::seq_lib::to_multiset_insert(t, p, x);
        vstd::seq_lib::to_multiset_build(rest, x);
        assert(rest.push(x) =~= s);
        assert forall|i: int, j: int| 0 <= i < j < r.len() implies !ranks_before(
            #[trigger] r[j],
            #[trigger] r[i],
        ) by {
            if j < p {
                assert(r[i] == t[i] && r[j] == t[j]);
            } else if j == p {
                assert(r[i] == t[i]);
                lemma_ranks_before_order(x, t[i], x);
                if ranks_before(x, t[i]) {
                }
            } else if i < p {
                assert(r[i] == t[i] && r[j] == t[j - 1]);
            } else if i == p {
                assert(r[j] == t[j - 1]);
                if j - 1 > p {
                    lemma_ranks_before_order(t[j - 1], x, t[p]);
                } else {
                    lemma_ranks_before_order(x, t[p], x);
                }
            } else {
                assert(r[i] == t[i - 1] && r[j] == t[j - 1]);
            }
        }
    }
}

proof fn lemma_id_row(q: Seq<char>, nodes: Seq<NodeEntry>, t: nat)
    requires
        exists|k: int| 0 <= k < nodes.len() && nodes[k].id == t,
    ensures
        exists|k: int|
            0 <= k < node_rows(q, nodes, Some(t)).len() && #[trigger] node_rows(
                q,
                nodes,
                Some(t),
            )[k].6 == i32::MIN as int,
    decreases nodes.len(),
{
    let r = node_rows(q, nodes, Some(t));
    let n = nodes.last();
    let prev = node_rows(q, nodes.drop_last(), Some(t));
    if n.id as nat == t {
        assert(r[r.len() - 1].6 == i32::MIN as int);
    } else {
        let k = choose|k: int| 0 <= k < nodes.len() && nodes[k].id == t;
        assert(nodes.drop_last()[k] == nodes[k]);
        lemma_id_row(q, nodes.drop_last(), t);
        let j = choose|j: int| 0 <= j < prev.len() && #[trigger] prev[j].6 == i32::MIN as int;
        assert(r[j] == prev[j]);
    }
}

/// The switcher offers at most fifty rows, all of them rows the query found
/// and in rank order (score, then shorter path, then label); and when a
/// basket has the typed id, nothing ranks ahead of the lowest score, which
/// that basket's row carries.
pub proof fn law_switcher_rows(
    query: Seq<char>,
    nodes: Seq<NodeEntry>,
    cards: Seq<CardEntry>,
    groups: Seq<GroupEntry>,
)
    ensures
        ({
            let q = spec_lowercase(query);
            let a = all_rows(q, nodes, cards, groups);
            let r = spec_switcher_rows(query, nodes, cards, groups);
            &&& r.len() == if a.len() > 50 {
                50
            } else {
                a.len()
            }
            &&& rank_sorted(r)
            &&& forall|i: int| 0 <= i < r.len() ==> a.contains(#[trigger] r[i])
            &&& node_by_id(q, nodes) is Some ==> r.len() > 0 && r[0].6 <= i32::MIN as int
        }),
{
    let q = spec_lowercase(query);
    let a = all_rows(q, nodes, cards, groups);
    let full = ranked_rows(a);
    let r = spec_switcher_rows(query, nodes, cards, groups);
    lemma_ranked_rows(a);
    vstd::seq_lib::to_multiset_len(a);
    vstd::seq_lib::to_multiset_len(full);
    assert forall|i: int| 0 <= i < r.len() implies a.contains(#[trigger] r[i]) by {
        assert(r[i] == full[i]);
        vstd::seq_lib::to_multiset_contains(full, full[i]);
        vstd::seq_lib::to_multiset_contains(a, full[i]);
        assert(full.contains(full[i]));
    }
    if let Some(t) = node_by_id(q, nodes) {
        lemma_id_row(q, nodes, t);
        let nr = node_rows(q, nodes, Some(t));
        let k = choose|k: int| 0 <= k < nr.len() && #[trigger] nr[k].6 == i32::MIN as int;
        let pre = card_id_rows(q, cards) + group_id_rows(q, groups) + (if q.len() > 0 {
            card_title_rows(q, cards, match card_by_id(q, cards) {
                Some(i) => Some(cards[i].id),
                None => None,
            })
        } else {
            seq![]
        });
        assert(a == pre + nr);
        let x = nr[k];
        assert(a[pre.len() + k] == x);
        assert(a.contains(x));
        vstd::seq_lib::to_multiset_contains(a, x);
        vstd::seq_lib::to_multiset_contains(full, x);
        let j = choose|j: int| 0 <= j < full.len() && full[j] == x;
        if j > 0 {
            assert(!ranks_before(full[j], full[0]));
        }
        assert(r[0] == full[0]);
    }
}


/// Revoking by name removes exactly the grants of that name and kind: an
/// agent's revocation leaves every other agent's token and every plugin
/// grant, and a plugin's leaves every agent token.
pub proof fn law_revoke_touches_only_its_own(gs: Seq<GrantView>, name: Seq<char>, agents: bool)
    ensures
        forall|g: GrantView| #[trigger]
            without(gs, name, agents).contains(g) <==> gs.contains(g) && !(g.0 == name && g.3
                == agents),
    decreases gs.len(),
{
    broadcast use vstd::seq_lib::lemma_seq_contains_after_push;

    if gs.len() > 0 {
        let rest = gs.drop_last();
        let x = gs.last();
        law_revoke_touches_only_its_own(rest, name, agents);
        assert(gs =~= rest.push(x));
        let r = without(rest, name, agents);
        assert forall|g: GrantView| #[trigger]
            without(gs, name, agents).contains(g) <==> gs.contains(g) && !(g.0 == name && g.3
                == agents) by {
            assert(gs.contains(g) == rest.push(x).contains(g));
            assert(rest.push(x).contains(g) == (x == g || rest.contains(g)));
            assert(r.contains(g) == (rest.contains(g) && !(g.0 == name && g.3 == agents)));
            if !(x.0 == name && x.3 == agents) {
                assert(r.push(x).contains(g) == (x == g || r.contains(g)));
            }
        }
    } else {
        assert(without(gs, name, agents) =~= Seq::<GrantView>::empty());
    }
}

/// A one-shot edit always takes its own undo step and ends any gesture.
pub proof fn law_one_shot_edit_snapshots(held: Option<Gesture>, pointer_down: bool, kinds: Seq<UndoKind>)
    requires
        has_discrete(kinds),
    ensures
        spec_undo_step(held, pointer_down, kinds) == (true, None::<Gesture>),
{
}

/// A held drag is one undo step: once a frame of a gesture has been seen,
/// every further frame of the same gesture while the pointer stays down
/// takes no snapshot and stays inside the gesture.
pub proof fn law_held_drag_is_one_step(
    held: Option<Gesture>,
    first: Seq<UndoKind>,
    next: Seq<UndoKind>,
    t: Gesture,
)
    requires
        !has_discrete(first),
        last_gesture(first) == Some(t),
        !has_discrete(next),
        last_gesture(next) == Some(t),
    ensures
        spec_undo_step(held, true, first).1 == Some(t),
        spec_undo_step(spec_undo_step(held, true, first).1, true, next) == (false, Some(t)),
{
}

/// Releasing the pointer ends a gesture: the next frame of it snapshots
/// again.
pub proof fn law_release_ends_gesture(held: Option<Gesture>, kinds: Seq<UndoKind>, t: Gesture)
    requires
        !has_discrete(kinds),
        last_gesture(kinds) == Some(t),
    ensures
        spec_undo_step(held, false, kinds) == (true, Some(t)),
{
}

/// Frames with nothing to undo take no snapshot.
pub proof fn law_untracked_frames_take_nothing(held: Option<Gesture>, pointer_down: bool, kinds: Seq<UndoKind>)
    requires
        forall|i: int| 0 <= i < kinds.len() ==> kinds[i] == UndoKind::Untracked,
    ensures
        !spec_undo_step(held, pointer_down, kinds).0,
    decreases kinds.len(),
{
    if kinds.len() > 0 {
        law_untracked_frames_take_nothing(held, pointer_down, kinds.drop_last());
        lemma_no_gesture(kinds);
    }
}

proof fn lemma_no_gesture(kinds: Seq<UndoKind>)
    requires
        forall|i: int| 0 <= i < kinds.len() ==> kinds[i] == UndoKind::Untracked,
    ensures
        last_gesture(kinds) is None,
        !has_discrete(kinds),
    decreases kinds.len(),
{
    if kinds.len() > 0 {
        lemma_no_gesture(kinds.drop_last());
    }
}

/// Undo then redo round trip: after an undo hands out a snapshot and the
/// replaced state `cur` of the same node is recorded for redo, a redo while
/// that node is alive hands `cur` back and leaves the redo side as before.
pub proof fn law_redo_after_undo<T>(redo: Seq<(u64, T)>, node: u64, cur: T, alive: Seq<u64>)
    requires
        alive.contains(node),
    ensures
        last_alive(redo.push((node, cur)), alive) == redo.len(),
        redo.push((node, cur))[redo.len() as int] == (node, cur),
        redo.push((node, cur)).take(redo.len() as int) == redo,
{
    assert(redo.push((node, cur)).drop_last() =~= redo);
    assert(redo.push((node, cur)).take(redo.len() as int) =~= redo);
}

/// An undo that hands out a snapshot takes it and everything newer off the
/// undo side, so recording the replaced state for redo keeps the history
/// within `MAX_UNDO` snapshots.
pub proof fn law_undo_keeps_bound<T>(undo: Seq<(u64, T)>, redo: Seq<(u64, T)>, alive: Seq<u64>)
    requires
        undo.len() + redo.len() <= MAX_UNDO,
        last_alive(undo, alive) >= 0,
    ensures
        undo.take(last_alive(undo, alive)).len() + redo.len() < MAX_UNDO,
{
    lemma_last_alive_below(undo, alive);
}

proof fn lemma_last_alive_below<T>(s: Seq<(u64, T)>, alive: Seq<u64>)
    ensures
        last_alive(s, alive) < s.len(),
    decreases s.len(),
{
    if s.len() > 0 {
        lemma_last_alive_below(s.drop_last(), alive);
    }
}

/// Node `n`, at position `i`, is top-level or has its parent before it.
pub open spec fn parent_before(n: NodeView, i: int) -> bool {
    match n.0 {
        Some(p) => p < i,
        None => true,
    }
}

/// Every node's parent comes before it, and the year and month nodes on
/// record are nodes already made.
pub open spec fn outline_ordered(st: OutlineState) -> bool {
    &&& forall|i: int| 0 <= i < st.0.len() ==> parent_before(#[trigger] st.0[i], i)
    &&& forall|j: int| 0 <= j < st.1.len() ==> (#[trigger] st.1[j]).1 < st.0.len()
    &&& forall|j: int| 0 <= j < st.2.len() ==> (#[trigger] st.2[j]).2 < st.0.len()
}

proof fn lemma_year_node_below(years: Seq<(int, nat)>, y: int, bound: nat)
    requires
        forall|j: int| 0 <= j < years.len() ==> (#[trigger] years[j]).1 < bound,
    ensures
        year_node(years, y) matches Some(i) ==> i < bound,
    decreases years.len(),
{
    if years.len() > 0 {
        assert(years.last() == years[years.len() - 1]);
        lemma_year_node_below(years.drop_last(), y, bound);
    }
}

proof fn lemma_month_node_below(months: Seq<(int, nat, nat)>, y: int, m: nat, bound: nat)
    requires
        forall|j: int| 0 <= j < months.len() ==> (#[trigger] months[j]).2 < bound,
    ensures
        month_node(months, y, m) matches Some(i) ==> i < bound,
    decreases months.len(),
{
    if months.len() > 0 {
        assert(months.last() == months[months.len() - 1]);
        lemma_month_node_below(months.drop_last(), y, m, bound);
    }
}

proof fn lemma_outline_ordered(st: OutlineState, days: Seq<DayView>)
    requires
        outline_ordered(st),
    ensures
        outline_ordered(outline_days(st, days)),
    decreases days.len(),
{
    if days.len() > 0 {
        let prev = outline_days(st, days.drop_last());
        lemma_outline_ordered(st, days.drop_last());
        let d = days.last();
        lemma_year_node_below(prev.1, d.0, prev.0.len());
        lemma_month_node_below(prev.2, d.0, d.1, prev.0.len());
        let next = outline_day(prev, d);
        assert(next == outline_days(st, days));
        let l = prev.0.len();
        let (n1, y1, yn) = match year_node(prev.1, d.0) {
            Some(k) => (prev.0, prev.1, k),
            None => (prev.0.push((None, year_title(d.0), Seq::empty())), prev.1.push((d.0, l)), l),
        };
        let (n2, m2, mn) = match month_node(prev.2, d.0, d.1) {
            Some(k) => (n1, prev.2, k),
            None => (
                n1.push((Some(yn), spec_month_name(d.1), Seq::empty())),
                prev.2.push((d.0, d.1, n1.len())),
                n1.len(),
            ),
        };
        assert(next.0 == n2.push((Some(mn), d.3, d.4)));
        assert(yn < n1.len());
        assert(mn < n2.len());
        assert forall|i: int| 0 <= i < n1.len() implies parent_before(#[trigger] n1[i], i) by {
            if i < l {
                assert(n1[i] == prev.0[i]);
            }
        }
        assert forall|i: int| 0 <= i < n2.len() implies parent_before(#[trigger] n2[i], i) by {
            if i < n1.len() {
                assert(n2[i] == n1[i]);
            }
        }
        assert forall|i: int| 0 <= i < next.0.len() implies parent_before(#[trigger] next.0[i], i) by {
            if i < n2.len() {
                assert(next.0[i] == n2[i]);
            }
        }
        assert forall|j: int| 0 <= j < next.2.len() implies (#[trigger] next.2[j]).2 < next.0.len() by {
            if j < prev.2.len() {
                assert(next.2[j] == prev.2[j]);
            }
        }
        assert forall|j: int| 0 <= j < next.1.len() implies (#[trigger] next.1[j]).1 < next.0.len() by {
            if j < prev.1.len() {
                assert(next.1[j] == prev.1[j]);
            }
        }
    }
}

/// The imported outline is a forest: every node's parent is a node listed
/// before it, so following parents always ends at a top-level node.
pub proof fn law_outline_parents_come_first(reference: Seq<Seq<Seq<char>>>, days: Seq<DayView>)
    ensures
        forall|i: int|
            0 <= i < spec_outline(reference, days).len() ==> parent_before(
                #[trigger] spec_outline(reference, days)[i],
                i,
            ),
{
    let start: Seq<NodeView> = if reference.len() > 0 {
        seq![(None, "Reference"@, reference)]
    } else {
        Seq::empty()
    };
    let st: OutlineState = (start, Seq::empty(), Seq::empty());
    assert(outline_ordered(st));
    lemma_outline_ordered(st, days);
}

/// Startup never replaces a working link handler, whichever binary it
/// points at; it registers only when the handler is missing or broken and
/// this binary's path is known.
pub proof fn law_working_handler_is_kept(exe_known: bool, handler_healthy: bool)
    ensures
        handler_healthy ==> spec_scheme_startup(exe_known, handler_healthy) == SchemeStartup::Keep,
        spec_scheme_startup(exe_known, handler_healthy) == SchemeStartup::Register <==> exe_known
            && !handler_healthy,
{
}

/// `c` is the lower-case ASCII letter `lower` or its capital.
pub open spec fn letter_is(c: char, lower: char) -> bool {
    c == lower || c as int == lower as int - 32
}

/// `w` opens with one of the seven three-letter day names, Monday to
/// Sunday, in any ASCII case.
pub open spec fn starts_with_day_name(w: Seq<char>) -> bool {
    w.len() >= 3 && {
        let (a, b, c) = (w[0], w[1], w[2]);
        ||| letter_is(a, 'm') && letter_is(b, 'o') && letter_is(c, 'n')
        ||| letter_is(a, 't') && letter_is(b, 'u') && letter_is(c, 'e')
        ||| letter_is(a, 'w') && letter_is(b, 'e') && letter_is(c, 'd')
        ||| letter_is(a, 't') && letter_is(b, 'h') && letter_is(c, 'u')
        ||| letter_is(a, 'f') && letter_is(b, 'r') && letter_is(c, 'i')
        ||| letter_is(a, 's') && letter_is(b, 'a') && letter_is(c, 't')
        ||| letter_is(a, 's') && letter_is(b, 'u') && letter_is(c, 'n')
    }
}

/// A journal line opens a day exactly when, trimmed, its first word starts
/// with a day name of any of the seven weekdays, Sunday included, in any
/// case, and it holds an `M/D/YYYY` date.
pub proof fn law_day_dividers_cover_the_week(line: Seq<char>)
    ensures
        spec_is_day_divider(line) <==> ({
            let ws = words(trim(line));
            ws.len() > 0 && starts_with_day_name(ws[0]) && spec_parse_date(trim(line)) is Some
        }),
{
}

proof fn lemma_node_rows_are_baskets(q: Seq<char>, nodes: Seq<NodeEntry>, by_id: Option<nat>)
    ensures
        forall|i: int|
            0 <= i < node_rows(q, nodes, by_id).len() ==> (#[trigger] node_rows(q, nodes, by_id)[i]).1 is None
                && node_rows(q, nodes, by_id)[i].2 is None,
    decreases nodes.len(),
{
    if nodes.len() > 0 {
        lemma_node_rows_are_baskets(q, nodes.drop_last(), by_id);
        let r = node_rows(q, nodes.drop_last(), by_id);
        assert forall|i: int|
            0 <= i < node_rows(q, nodes, by_id).len() implies (#[trigger] node_rows(q, nodes, by_id)[i]).1 is None
                && node_rows(q, nodes, by_id)[i].2 is None by {
            if i < r.len() {
                assert(node_rows(q, nodes, by_id)[i] == r[i]);
            }
        }
    }
}

/// The switcher offers nothing but baskets for an empty query: every row it
/// gives names no card and no group.
pub proof fn law_empty_query_offers_only_baskets(
    query: Seq<char>,
    nodes: Seq<NodeEntry>,
    cards: Seq<CardEntry>,
    groups: Seq<GroupEntry>,
)
    requires
        spec_lowercase(query).len() == 0,
    ensures
        forall|i: int|
            0 <= i < spec_switcher_rows(query, nodes, cards, groups).len() ==> (
            #[trigger] spec_switcher_rows(query, nodes, cards, groups)[i]).1 is None
                && spec_switcher_rows(query, nodes, cards, groups)[i].2 is None,
{
    let q = spec_lowercase(query);
    let a = all_rows(q, nodes, cards, groups);
    let r = spec_switcher_rows(query, nodes, cards, groups);
    law_switcher_rows(query, nodes, cards, groups);
    assert(trim(q) =~= q) by {
        assert(trim_start(q) =~= q);
        assert(trim_end(q) =~= q);
    }
    assert(node_id_digits(q).len() == 0);
    assert(spec_queried_node_id(q) is None);
    assert(spec_queried_group_id(q) is None);
    assert(card_id_rows(q, cards) =~= Seq::<HitView>::empty());
    assert(group_id_rows(q, groups) =~= Seq::<HitView>::empty());
    let nr = node_rows(q, nodes, node_by_id(q, nodes));
    assert(a =~= nr);
    lemma_node_rows_are_baskets(q, nodes, node_by_id(q, nodes));
    assert forall|i: int| 0 <= i < r.len() implies (#[trigger] r[i]).1 is None && r[i].2 is None by {
        assert(a.contains(r[i]));
        let k = choose|k: int| 0 <= k < a.len() && a[k] == r[i];
        assert(nr[k] == r[i]);
    }
}

proof fn lemma_enabled_positions_exact(ds: Seq<BackupDest>, n: int)
    requires
        0 <= n <= ds.len(),
    ensures
        forall|k: int|
            0 <= k < enabled_positions(ds, n).len() ==> 0 <= #[trigger] enabled_positions(ds, n)[k]
                < n && ds[enabled_positions(ds, n)[k]].enabled,
        forall|i: int|
            0 <= i < n && ds[i].enabled ==> #[trigger] enabled_positions(ds, n).contains(i),
    decreases n,
{
    if n > 0 {
        lemma_enabled_positions_exact(ds, n - 1);
        let p = enabled_positions(ds, n - 1);
        assert forall|i: int| 0 <= i < n && ds[i].enabled implies #[trigger] enabled_positions(
            ds,
            n,
        ).contains(i) by {
            if i < n - 1 {
                assert(p.contains(i));
                let k = choose|k: int| 0 <= k < p.len() && p[k] == i;
                assert(enabled_positions(ds, n)[k] == i);
            } else {
                assert(enabled_positions(ds, n)[p.len() as int] == i);
            }
        }
        assert forall|k: int| 0 <= k < enabled_positions(ds, n).len() implies 0
            <= #[trigger] enabled_positions(ds, n)[k] < n && ds[enabled_positions(ds, n)[k]].enabled by {
            if k < p.len() {
                assert(enabled_positions(ds, n)[k] == p[k]);
            }
        }
    }
}

/// A backup run stages a copy exactly when some enabled destination is not
/// a plain directory: SFTP and rclone both deliver the staged copy, so a
/// plan whose only enabled destination is rclone stages too.
pub proof fn law_staging_for_every_remote(cfg: &BackupConfig)
    ensures
        any_remote(cfg) <==> exists|i: int|
            0 <= i < cfg.destinations@.len() && (#[trigger] cfg.destinations@[i]).enabled
                && cfg.destinations@[i].kind != DestKind::Disk,
{
    let ds = cfg.destinations@;
    let e = enabled_all(cfg);
    lemma_enabled_positions_exact(ds, ds.len() as int);
    if any_remote(cfg) {
        let k = choose|k: int|
            0 <= k < e.len() && cfg.destinations@[#[trigger] e[k]].kind != DestKind::Disk;
        assert(ds[e[k]].enabled);
    }
    if exists|i: int| 0 <= i < ds.len() && (#[trigger] ds[i]).enabled && ds[i].kind != DestKind::Disk {
        let i = choose|i: int| 0 <= i < ds.len() && (#[trigger] ds[i]).enabled && ds[i].kind != DestKind::Disk;
        assert(e.contains(i));
        let k = choose|k: int| 0 <= k < e.len() && e[k] == i;
        assert(cfg.destinations@[e[k]].kind != DestKind::Disk);
    }
}

proof fn lemma_first_plugin(gs: Seq<GrantView>, name: Seq<char>, i: int)
    requires
        0 <= i <= gs.len(),
    ensures
        i <= first_plugin(gs, name, i) <= gs.len(),
        first_plugin(gs, name, i) < gs.len() ==> gs[first_plugin(gs, name, i)].0 == name
            && !gs[first_plugin(gs, name, i)].3,
        forall|j: int| i <= j < first_plugin(gs, name, i) ==> !((#[trigger] gs[j]).0 == name && !gs[j].3),
    decreases gs.len() - i,
{
    if i < gs.len() {
        lemma_first_plugin(gs, name, i + 1);
    }
}

/// Approving plugin `name` for `want`, with `fresh` as a new token: its
/// first grant (not an agent's token of the same name) keeps its token only
/// when the scope is the same in every field; with any other scope, read
/// access or subtree, the grant takes `want` and `fresh`, and `fresh` is the
/// answer; a plugin with no grant gets a new one holding `fresh`.
pub proof fn law_plugin_grant_follows_the_scope(
    gs: Seq<GrantView>,
    name: Seq<char>,
    want: Scope,
    fresh: Seq<char>,
)
    ensures
        ({
            let (after, tok) = spec_plugin_grant(gs, name, want, fresh);
            &&& forall|k: int|
                0 <= k < gs.len() && (#[trigger] gs[k]).0 == name && !gs[k].3 && (forall|j: int|
                    0 <= j < k ==> !((#[trigger] gs[j]).0 == name && !gs[j].3)) ==> {
                    &&& (gs[k].2.read_only == want.read_only && gs[k].2.subtree == want.subtree)
                        ==> after == gs && tok == gs[k].1
                    &&& (gs[k].2.read_only != want.read_only || gs[k].2.subtree != want.subtree)
                        ==> tok == fresh && after.len() == gs.len() && after[k] == (
                        gs[k].0,
                        fresh,
                        want,
                        false,
                    ) && forall|j: int| 0 <= j < gs.len() && j != k ==> after[j] == gs[j]
                }
            &&& (forall|j: int| 0 <= j < gs.len() ==> !((#[trigger] gs[j]).0 == name && !gs[j].3))
                ==> tok == fresh && after == gs.push((name, fresh, want, false))
        }),
{
    lemma_first_plugin(gs, name, 0);
    let f = first_plugin(gs, name, 0);
    assert forall|k: int|
        0 <= k < gs.len() && (#[trigger] gs[k]).0 == name && !gs[k].3 && (forall|j: int|
            0 <= j < k ==> !((#[trigger] gs[j]).0 == name && !gs[j].3)) implies f == k by {
        if f < k {
            assert(!(gs[f].0 == name && !gs[f].3));
        }
    }
}

/// RFC 1918's private ranges by prefix: 10.0.0.0/8, 172.16.0.0/12 and
/// 192.168.0.0/16.
pub open spec fn in_rfc1918(a: Ipv4) -> bool {
    a.0 == 10 || (a.0 == 172 && a.1 / 16 == 1) || (a.0 == 192 && a.1 == 168)
}

/// The addresses counted private are exactly RFC 1918's, all of
/// 172.16.0.0/12 included, and every one of them is offered ahead of every
/// address outside those ranges.
pub proof fn law_private_ranges_rank_first(probed: Seq<Ipv4>)
    ensures
        forall|a: Ipv4| #[trigger] is_private(a) <==> in_rfc1918(a),
        forall|i: int, j: int|
            0 <= i < j < ranked(probed).len() && in_rfc1918(#[trigger] ranked(probed)[j])
                ==> in_rfc1918(#[trigger] ranked(probed)[i]),
{
    assert forall|a: Ipv4| #[trigger] is_private(a) <==> in_rfc1918(a) by {
        assert(16 <= a.1 <= 31 <==> a.1 / 16 == 1);
    }
    law_ranked_addresses(probed);
}

} // verus!
