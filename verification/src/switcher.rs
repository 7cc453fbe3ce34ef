//! The quick switcher's rows: what a typed query finds among baskets,
//! cards and groups, and in what order they are offered.

use vstd::prelude::*;
use crate::order::{lemma_lex_antisym, lemma_lex_total, lex_le, lex_le_exec, lex_lt};
use crate::palette::{
    card_label, fuzzy_score, queried_group_id, queried_node_id, spec_card_label,
    spec_fuzzy_score, spec_queried_group_id, spec_queried_node_id,
};
use crate::text::{chars_of, concat_chars, string_of, trim, trim_chars};
use vstd::utf8::encode_utf8;

verus! {

/// A basket as the switcher sees it: its id, title and path in the tree.
pub struct NodeEntry {
    pub id: u64,
    pub title: String,
    pub path: String,
}

/// A card as the switcher sees it: its basket, id, title, body and the
/// basket's path.
pub struct CardEntry {
    pub node: u64,
    pub id: u64,
    pub title: String,
    pub body: String,
    pub path: String,
}

/// A group as the switcher sees it: its basket, id, title and the basket's
/// path.
pub struct GroupEntry {
    pub node: u64,
    pub id: u64,
    pub title: String,
    pub path: String,
}

/// One row of the switcher: the basket to open, the card or group to reveal
/// in it, the id shown, its label and path, and its rank (lower is better).
pub struct SwitcherHit {
    pub node: u64,
    pub card: Option<u64>,
    pub group: Option<u64>,
    pub id: u64,
    pub label: String,
    pub path: String,
    pub score: i32,
}

/// A row as the spec sees it.
pub type HitView = (u64, Option<u64>, Option<u64>, u64, Seq<char>, Seq<char>, int);

/// The view of a row.
pub open spec fn hit_view(h: SwitcherHit) -> HitView {
    (h.node, h.card, h.group, h.id, h.label@, h.path@, h.score as int)
}

/// What `str::to_lowercase` gives for `s`.
pub uninterp spec fn spec_lowercase(s: Seq<char>) -> Seq<char>;

/// Calls `str::to_lowercase`. The Unicode mapping it applies is named by
/// `spec_lowercase`; nothing more is claimed.
#[verifier::external_body]
fn lowercase(s: &str) -> (r: String)
    ensures
        r@ == spec_lowercase(s@),
{
    s.to_lowercase()
}

/// The text a basket or card is searched in: its lower-cased title, a line
/// break, and its lower-cased path.
pub open spec fn haystack(title: Seq<char>, path: Seq<char>) -> Seq<char> {
    spec_lowercase(title) + seq!['\n'] + spec_lowercase(path)
}

/// Whether an entry's lower-cased title and path are short enough to rank.
pub open spec fn rankable(title: Seq<char>, path: Seq<char>) -> bool {
    spec_lowercase(title).len() + spec_lowercase(path).len() + 1 <= 0x7fff_0000
}

/// A card title's rank: after every basket, `10 000` above its fuzzy score
/// (saturating).
pub open spec fn card_rank(s: int) -> int {
    if s > i32::MAX - 10000 {
        i32::MAX as int
    } else {
        s + 10000
    }
}

/// The position of the first card with id `id` at or after `i`.
pub open spec fn first_card(cards: Seq<CardEntry>, id: nat, i: int) -> int
    decreases cards.len() - i,
{
    if i < 0 || i >= cards.len() {
        cards.len() as int
    } else if cards[i].id == id {
        i
    } else {
        first_card(cards, id, i + 1)
    }
}

/// The position of the first group with id `id` at or after `i`.
pub open spec fn first_group(groups: Seq<GroupEntry>, id: nat, i: int) -> int
    decreases groups.len() - i,
{
    if i < 0 || i >= groups.len() {
        groups.len() as int
    } else if groups[i].id == id {
        i
    } else {
        first_group(groups, id, i + 1)
    }
}

/// The card a query names by id, if there is one.
pub open spec fn card_by_id(q: Seq<char>, cards: Seq<CardEntry>) -> Option<int> {
    match spec_queried_node_id(q) {
        Some(t) => if first_card(cards, t, 0) < cards.len() {
            Some(first_card(cards, t, 0))
        } else {
            None
        },
        None => None,
    }
}

/// The basket id a query names, if a basket has it.
pub open spec fn node_by_id(q: Seq<char>, nodes: Seq<NodeEntry>) -> Option<nat> {
    match spec_queried_node_id(q) {
        Some(t) => if exists|k: int| 0 <= k < nodes.len() && nodes[k].id == t {
            Some(t)
        } else {
            None
        },
        None => None,
    }
}

/// The row for a card named by id: just above a basket named by the same
/// number.
pub open spec fn card_id_rows(q: Seq<char>, cards: Seq<CardEntry>) -> Seq<HitView> {
    match card_by_id(q, cards) {
        Some(i) => {
            let c = cards[i];
            seq![
                (c.node, Some(c.id), None, c.id, spec_card_label(c.title@, c.body@), c.path@, i32::MIN
                    + 1),
            ]
        },
        None => seq![],
    }
}

/// The row for a group named by id (`g146`).
pub open spec fn group_id_rows(q: Seq<char>, groups: Seq<GroupEntry>) -> Seq<HitView> {
    match spec_queried_group_id(q) {
        Some(g) => if first_group(groups, g, 0) < groups.len() {
            let e = groups[first_group(groups, g, 0)];
            let label = if trim(e.title@).len() == 0 {
                "(untitled group)"@
            } else {
                e.title@
            };
            seq![(e.node, None, Some(e.id), e.id, label, e.path@, i32::MIN + 1)]
        } else {
            seq![]
        },
        None => seq![],
    }
}

/// The rows for cards matched by title, in order: titled cards only, not
/// the card already named by id.
pub open spec fn card_title_rows(q: Seq<char>, cards: Seq<CardEntry>, skip: Option<u64>) -> Seq<
    HitView,
>
    decreases cards.len(),
{
    if cards.len() == 0 {
        seq![]
    } else {
        let r = card_title_rows(q, cards.drop_last(), skip);
        let c = cards.last();
        if trim(c.title@).len() == 0 || skip == Some(c.id) {
            r
        } else {
            match spec_fuzzy_score(q, spec_lowercase(c.title@), haystack(c.title@, c.path@)) {
                Some(s) => r.push((c.node, Some(c.id), None, c.id, c.title@, c.path@, card_rank(s))),
                None => r,
            }
        }
    }
}

/// The rows for baskets, in order: the basket named by id ranks below every
/// score, the others by their fuzzy score.
pub open spec fn node_rows(q: Seq<char>, nodes: Seq<NodeEntry>, by_id: Option<nat>) -> Seq<HitView>
    decreases nodes.len(),
{
    if nodes.len() == 0 {
        seq![]
    } else {
        let r = node_rows(q, nodes.drop_last(), by_id);
        let n = nodes.last();
        if by_id == Some(n.id as nat) {
            r.push((n.id, None, None, n.id, n.title@, n.path@, i32::MIN as int))
        } else {
            match spec_fuzzy_score(q, spec_lowercase(n.title@), haystack(n.title@, n.path@)) {
                Some(s) => r.push((n.id, None, None, n.id, n.title@, n.path@, s)),
                None => r,
            }
        }
    }
}

/// Every row a query finds, before ordering.
pub open spec fn all_rows(
    q: Seq<char>,
    nodes: Seq<NodeEntry>,
    cards: Seq<CardEntry>,
    groups: Seq<GroupEntry>,
) -> Seq<HitView> {
    let skip = match card_by_id(q, cards) {
        Some(i) => Some(cards[i].id),
        None => None,
    };
    card_id_rows(q, cards) + group_id_rows(q, groups) + (if q.len() > 0 {
        card_title_rows(q, cards, skip)
    } else {
        seq![]
    }) + node_rows(q, nodes, node_by_id(q, nodes))
}

/// Whether row `a` ranks strictly before row `b`: by score, then by the
/// path's length in bytes, then by label.
pub open spec fn ranks_before(a: HitView, b: HitView) -> bool {
    a.6 < b.6 || (a.6 == b.6 && (encode_utf8(a.5).len() < encode_utf8(b.5).len() || (
    encode_utf8(a.5).len() == encode_utf8(b.5).len() && lex_lt(a.4, b.4))))
}

/// Where `x` goes among the ordered rows `t`, looking from `i`: before the
/// first row it ranks before, so that equal rows keep their order.
pub open spec fn insert_pos(t: Seq<HitView>, x: HitView, i: int) -> int
    decreases t.len() - i,
{
    if i < 0 || i >= t.len() {
        t.len() as int
    } else if ranks_before(x, t[i]) {
        i
    } else {
        insert_pos(t, x, i + 1)
    }
}

/// `s` in rank order, a stable sort.
pub open spec fn ranked_rows(s: Seq<HitView>) -> Seq<HitView>
    decreases s.len(),
{
    if s.len() == 0 {
        seq![]
    } else {
        let t = ranked_rows(s.drop_last());
        t.insert(insert_pos(t, s.last(), 0), s.last())
    }
}

/// What the switcher offers for `query`: the first fifty rows in rank
/// order.
pub open spec fn spec_switcher_rows(
    query: Seq<char>,
    nodes: Seq<NodeEntry>,
    cards: Seq<CardEntry>,
    groups: Seq<GroupEntry>,
) -> Seq<HitView> {
    let r = ranked_rows(all_rows(spec_lowercase(query), nodes, cards, groups));
    if r.len() > 50 {
        r.take(50)
    } else {
        r
    }
}


/// The byte length of a string.
fn byte_len(s: &String) -> (r: usize)
    ensures
        r as nat == encode_utf8(s@).len(),
{
    s.as_str().as_bytes().len()
}

fn ranks_before_exec(a: &SwitcherHit, b: &SwitcherHit) -> (r: bool)
    ensures
        r == ranks_before(hit_view(*a), hit_view(*b)),
{
    if a.score != b.score {
        return a.score < b.score;
    }
    let la = byte_len(&a.path);
    let lb = byte_len(&b.path);
    if la != lb {
        return la < lb;
    }
    let x = chars_of(a.label.as_str());
    let y = chars_of(b.label.as_str());
    let ba = lex_le_exec(&y, &x);
    proof {
        lemma_lex_total(x@, y@);
        if lex_le(x@, y@) && lex_le(y@, x@) {
            lemma_lex_antisym(x@, y@);
        }
    }
    !ba
}

fn copy_hit(h: &SwitcherHit) -> (r: SwitcherHit)
    ensures
        hit_view(r) == hit_view(*h),
{
    SwitcherHit {
        node: h.node,
        card: h.card,
        group: h.group,
        id: h.id,
        label: h.label.clone(),
        path: h.path.clone(),
        score: h.score,
    }
}

/// `x` placed among the ordered `rows` after every row it does not rank
/// before.
fn rank_insert(rows: &mut Vec<SwitcherHit>, x: SwitcherHit)
    ensures
        final(rows)@.map_values(|h: SwitcherHit| hit_view(h)) == old(rows)@.map_values(
            |h: SwitcherHit| hit_view(h),
        ).insert(
            insert_pos(old(rows)@.map_values(|h: SwitcherHit| hit_view(h)), hit_view(x), 0),
            hit_view(x),
        ),
{
    let ghost t = rows@.map_values(|h: SwitcherHit| hit_view(h));
    let ghost xv = hit_view(x);
    let mut p: usize = 0;
    while p < rows.len() && !ranks_before_exec(&x, &rows[p])
        invariant
            p <= rows@.len(),
            t == rows@.map_values(|h: SwitcherHit| hit_view(h)),
            xv == hit_view(x),
            insert_pos(t, xv, 0) == insert_pos(t, xv, p as int),
        decreases rows@.len() - p,
    {
        assert(t[p as int] == hit_view(rows@[p as int]));
        p += 1;
    }
    proof {
        if p < rows@.len() {
            assert(t[p as int] == hit_view(rows@[p as int]));
        }
    }
    rows.insert(p, x);
    assert(rows@.map_values(|h: SwitcherHit| hit_view(h)) =~= t.insert(p as int, xv));
}

fn push_hit(rows: &mut Vec<SwitcherHit>, h: SwitcherHit)
    ensures
        final(rows)@.map_values(|h: SwitcherHit| hit_view(h)) == old(rows)@.map_values(
            |h: SwitcherHit| hit_view(h),
        ).push(hit_view(h)),
{
    let ghost before = rows@.map_values(|h: SwitcherHit| hit_view(h));
    let ghost hv = hit_view(h);
    rows.push(h);
    assert(rows@.map_values(|h: SwitcherHit| hit_view(h)) =~= before.push(hv));
}

fn card_rank_exec(s: i32) -> (r: i32)
    ensures
        r as int == card_rank(s as int),
{
    if s > i32::MAX - 10000 {
        i32::MAX
    } else {
        s + 10000
    }
}

/// The text an entry is searched in, and its lower-cased title.
fn search_text(title: &String, path: &String) -> (r: (String, String))
    ensures
        r.0@ == spec_lowercase(title@),
        r.1@ == haystack(title@, path@),
{
    let t = lowercase(title.as_str());
    let p = lowercase(path.as_str());
    let mut h = chars_of(t.as_str());
    h.push('\n');
    let h2 = concat_chars(&h, &chars_of(p.as_str()));
    (t, string_of(&h2))
}

/// The switcher's rows for `query` among the baskets, cards and groups of
/// a document: a basket named by id first, then a card and a group named by
/// id, then the rest by fuzzy score, cards after baskets; ties by shorter
/// path, then label, then the order found. At most fifty rows.
pub fn switcher_rows(
    query: &str,
    nodes: &Vec<NodeEntry>,
    cards: &Vec<CardEntry>,
    groups: &Vec<GroupEntry>,
) -> (r: Vec<SwitcherHit>)
    requires
        forall|i: int| 0 <= i < nodes@.len() ==> rankable(#[trigger] nodes@[i].title@, nodes@[i].path@),
        forall|i: int| 0 <= i < cards@.len() ==> rankable(#[trigger] cards@[i].title@, cards@[i].path@),
    ensures
        r@.map_values(|h: SwitcherHit| hit_view(h)) == spec_switcher_rows(
            query@,
            nodes@,
            cards@,
            groups@,
        ),
{
    let qs = lowercase(query);
    let q = qs.as_str();
    let ghost qv = q@;
    let mut all: Vec<SwitcherHit> = Vec::new();
    // A card named by id.
    let typed = queried_node_id(q);
    let mut skip: Option<u64> = None;
    if let Some(t) = typed {
        let mut i: usize = 0;
        while i < cards.len() && cards[i].id != t
            invariant
                i <= cards@.len(),
                first_card(cards@, t as nat, 0) == first_card(cards@, t as nat, i as int),
            decreases cards@.len() - i,
        {
            i += 1;
        }
        if i < cards.len() {
            let c = &cards[i];
            let label = card_label(c.title.as_str(), c.body.as_str());
            skip = Some(c.id);
            push_hit(
                &mut all,
                SwitcherHit {
                    node: c.node,
                    card: Some(c.id),
                    group: None,
                    id: c.id,
                    label,
                    path: c.path.clone(),
                    score: i32::MIN + 1,
                },
            );
        }
    }
    assert(all@.map_values(|h: SwitcherHit| hit_view(h)) =~= card_id_rows(qv, cards@));
    assert(skip == match card_by_id(qv, cards@) {
        Some(i) => Some(cards@[i].id),
        None => None::<u64>,
    });
    // A group named by id.
    let ghost after_cards = all@.map_values(|h: SwitcherHit| hit_view(h));
    if let Some(g) = queried_group_id(q) {
        let mut i: usize = 0;
        while i < groups.len() && groups[i].id != g
            invariant
                i <= groups@.len(),
                first_group(groups@, g as nat, 0) == first_group(groups@, g as nat, i as int),
            decreases groups@.len() - i,
        {
            i += 1;
        }
        if i < groups.len() {
            let e = &groups[i];
            let label = if trim_chars(&chars_of(e.title.as_str())).len() == 0 {
                "(untitled group)".to_owned()
            } else {
                e.title.clone()
            };
            push_hit(
                &mut all,
                SwitcherHit {
                    node: e.node,
                    card: None,
                    group: Some(e.id),
                    id: e.id,
                    label,
                    path: e.path.clone(),
                    score: i32::MIN + 1,
                },
            );
        }
    }
    assert(all@.map_values(|h: SwitcherHit| hit_view(h)) =~= after_cards + group_id_rows(
        qv,
        groups@,
    ));
    // Cards by title.
    let ghost before_titles = all@.map_values(|h: SwitcherHit| hit_view(h));
    if !q.is_empty() {
        let mut k: usize = 0;
        assert(cards@.take(0) =~= Seq::<CardEntry>::empty());
        assert(before_titles + card_title_rows(qv, cards@.take(0), skip) =~= before_titles);
        while k < cards.len()
            invariant
                k <= cards@.len(),
                qv == q@,
                forall|i: int|
                    0 <= i < cards@.len() ==> rankable(#[trigger] cards@[i].title@, cards@[i].path@),
                all@.map_values(|h: SwitcherHit| hit_view(h)) == before_titles + card_title_rows(
                    qv,
                    cards@.take(k as int),
                    skip,
                ),
            decreases cards@.len() - k,
        {
            let c = &cards[k];
            assert(cards@.take(k + 1).drop_last() =~= cards@.take(k as int));
            assert(cards@.take(k + 1).last() == cards@[k as int]);
            let ghost prev = all@.map_values(|h: SwitcherHit| hit_view(h));
            let blank = trim_chars(&chars_of(c.title.as_str())).len() == 0;
            let skipped = match skip {
                Some(s) => s == c.id,
                None => false,
            };
            if !blank && !skipped {
                let (tl, hay) = search_text(&c.title, &c.path);
                assert(rankable(cards@[k as int].title@, cards@[k as int].path@));
                match fuzzy_score(q, tl.as_str(), hay.as_str()) {
                    Some(sc) => {
                        push_hit(
                            &mut all,
                            SwitcherHit {
                                node: c.node,
                                card: Some(c.id),
                                group: None,
                                id: c.id,
                                label: c.title.clone(),
                                path: c.path.clone(),
                                score: card_rank_exec(sc),
                            },
                        );
                        assert(all@.map_values(|h: SwitcherHit| hit_view(h)) =~= before_titles
                            + card_title_rows(qv, cards@.take(k + 1), skip));
                    },
                    None => {},
                }
            }
            k += 1;
        }
        assert(cards@.take(k as int) =~= cards@);
    }
    assert(all@.map_values(|h: SwitcherHit| hit_view(h)) =~= before_titles + (if qv.len() > 0 {
        card_title_rows(qv, cards@, skip)
    } else {
        seq![]
    }));
    // Baskets.
    let mut by_id: Option<u64> = None;
    if let Some(t) = typed {
        let mut i: usize = 0;
        while i < nodes.len()
            invariant
                i <= nodes@.len(),
                by_id is None ==> forall|k: int| 0 <= k < i ==> nodes@[k].id != t,
                by_id matches Some(b) ==> b == t && exists|k: int|
                    0 <= k < nodes@.len() && nodes@[k].id == t,
            decreases nodes@.len() - i,
        {
            if nodes[i].id == t {
                by_id = Some(t);
            }
            i += 1;
        }
    }
    assert(match by_id {
        Some(b) => node_by_id(qv, nodes@) == Some(b as nat),
        None => node_by_id(qv, nodes@) is None,
    });
    let ghost before_nodes = all@.map_values(|h: SwitcherHit| hit_view(h));
    let mut k: usize = 0;
    assert(nodes@.take(0) =~= Seq::<NodeEntry>::empty());
    assert(before_nodes + node_rows(qv, nodes@.take(0), node_by_id(qv, nodes@)) =~= before_nodes);
    while k < nodes.len()
        invariant
            k <= nodes@.len(),
            qv == q@,
            forall|i: int|
                0 <= i < nodes@.len() ==> rankable(#[trigger] nodes@[i].title@, nodes@[i].path@),
            match by_id {
                Some(b) => node_by_id(qv, nodes@) == Some(b as nat),
                None => node_by_id(qv, nodes@) is None,
            },
            all@.map_values(|h: SwitcherHit| hit_view(h)) == before_nodes + node_rows(
                qv,
                nodes@.take(k as int),
                node_by_id(qv, nodes@),
            ),
        decreases nodes@.len() - k,
    {
        let n = &nodes[k];
        assert(nodes@.take(k + 1).drop_last() =~= nodes@.take(k as int));
        assert(nodes@.take(k + 1).last() == nodes@[k as int]);
        let named = match by_id {
            Some(b) => b == n.id,
            None => false,
        };
        if named {
            push_hit(
                &mut all,
                SwitcherHit {
                    node: n.id,
                    card: None,
                    group: None,
                    id: n.id,
                    label: n.title.clone(),
                    path: n.path.clone(),
                    score: i32::MIN,
                },
            );
            assert(all@.map_values(|h: SwitcherHit| hit_view(h)) =~= before_nodes + node_rows(
                qv,
                nodes@.take(k + 1),
                node_by_id(qv, nodes@),
            ));
        } else {
            let (tl, hay) = search_text(&n.title, &n.path);
            assert(rankable(nodes@[k as int].title@, nodes@[k as int].path@));
            match fuzzy_score(q, tl.as_str(), hay.as_str()) {
                Some(sc) => {
                    push_hit(
                        &mut all,
                        SwitcherHit {
                            node: n.id,
                            card: None,
                            group: None,
                            id: n.id,
                            label: n.title.clone(),
                            path: n.path.clone(),
                            score: sc,
                        },
                    );
                    assert(all@.map_values(|h: SwitcherHit| hit_view(h)) =~= before_nodes
                        + node_rows(qv, nodes@.take(k + 1), node_by_id(qv, nodes@)));
                },
                None => {},
            }
        }
        k += 1;
    }
    assert(nodes@.take(k as int) =~= nodes@);
    let ghost av = all@.map_values(|h: SwitcherHit| hit_view(h));
    assert(av == all_rows(qv, nodes@, cards@, groups@));
    // Rank them.
    let mut ranked: Vec<SwitcherHit> = Vec::new();
    let mut j: usize = 0;
    assert(av.take(0) =~= Seq::<HitView>::empty());
    assert(ranked@.map_values(|h: SwitcherHit| hit_view(h)) =~= Seq::<HitView>::empty());
    while j < all.len()
        invariant
            j <= all@.len(),
            av == all@.map_values(|h: SwitcherHit| hit_view(h)),
            ranked@.map_values(|h: SwitcherHit| hit_view(h)) == ranked_rows(av.take(j as int)),
        decreases all@.len() - j,
    {
        let x = copy_hit(&all[j]);
        assert(av.take(j + 1).drop_last() =~= av.take(j as int));
        assert(av.take(j + 1).last() == hit_view(all@[j as int]));
        rank_insert(&mut ranked, x);
        j += 1;
    }
    assert(av.take(j as int) =~= av);
    let ghost rv = ranked@.map_values(|h: SwitcherHit| hit_view(h));
    ranked.truncate(50);
    assert(ranked@.map_values(|h: SwitcherHit| hit_view(h)) =~= if rv.len() > 50 {
        rv.take(50)
    } else {
        rv
    });
    ranked
}


/// Whether an entry can be ranked, testing its lower-cased title and path.
fn rankable_exec(title: &String, path: &String) -> (r: bool)
    ensures
        r == rankable(title@, path@),
{
    let t = chars_of(lowercase(title.as_str()).as_str());
    let p = chars_of(lowercase(path.as_str()).as_str());
    t.len() < 0x7fff_0000 && p.len() <= 0x7fff_0000 - t.len() - 1
}

/// The switcher's rows, or `None` when some title and path, lower-cased,
/// are too long to rank (over two thousand million characters).
pub fn switcher_rows_checked(
    query: &str,
    nodes: &Vec<NodeEntry>,
    cards: &Vec<CardEntry>,
    groups: &Vec<GroupEntry>,
) -> (r: Option<Vec<SwitcherHit>>)
    ensures
        r is None <==> (exists|i: int|
            0 <= i < nodes@.len() && !rankable(#[trigger] nodes@[i].title@, nodes@[i].path@)) || (
        exists|i: int|
            0 <= i < cards@.len() && !rankable(#[trigger] cards@[i].title@, cards@[i].path@)),
        r matches Some(v) ==> v@.map_values(|h: SwitcherHit| hit_view(h)) == spec_switcher_rows(
            query@,
            nodes@,
            cards@,
            groups@,
        ),
{
    let mut i: usize = 0;
    while i < nodes.len()
        invariant
            i <= nodes@.len(),
            forall|k: int| 0 <= k < i ==> rankable(#[trigger] nodes@[k].title@, nodes@[k].path@),
        decreases nodes@.len() - i,
    {
        if !rankable_exec(&nodes[i].title, &nodes[i].path) {
            return None;
        }
        i += 1;
    }
    let mut j: usize = 0;
    while j < cards.len()
        invariant
            j <= cards@.len(),
            forall|k: int| 0 <= k < j ==> rankable(#[trigger] cards@[k].title@, cards@[k].path@),
            forall|k: int|
                0 <= k < nodes@.len() ==> rankable(#[trigger] nodes@[k].title@, nodes@[k].path@),
        decreases cards@.len() - j,
    {
        if !rankable_exec(&cards[j].title, &cards[j].path) {
            return None;
        }
        j += 1;
    }
    Some(switcher_rows(query, nodes, cards, groups))
}

} // verus!
