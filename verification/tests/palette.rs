use trellis::palette::{
    card_label, describe_find, elide, fuzzy_score, queried_group_id, queried_node_id,
    split_for_extract, subseq_score,
};

#[test]
fn extract_puts_the_embed_on_its_own_line_without_piling_up_newlines() {
    let body: Vec<char> = "before SELECTED after".chars().collect();
    let (taken, head, tail) = split_for_extract(&body, 7, 15).unwrap();
    assert_eq!(taken, "SELECTED");
    assert_eq!(head, "before \n");
    assert_eq!(tail, "\n after");

    // Already on its own line: nothing is added.
    let para: Vec<char> = "one\nTWO\nthree".chars().collect();
    let (taken, head, tail) = split_for_extract(&para, 4, 7).unwrap();
    assert_eq!(taken, "TWO");
    assert_eq!(head, "one\n");
    assert_eq!(tail, "\nthree");

    // Selecting the whole body leaves nothing either side.
    let all: Vec<char> = "everything".chars().collect();
    let (taken, head, tail) = split_for_extract(&all, 0, all.len()).unwrap();
    assert_eq!((taken.as_str(), head.as_str(), tail.as_str()), ("everything", "", ""));

    // An empty or backwards range creates nothing at all.
    assert!(split_for_extract(&all, 3, 3).is_none());
    assert!(split_for_extract(&all, 5, 2).is_none());
    assert!(split_for_extract(&all, 0, 999).is_none());
}

#[test]
fn go_to_node_accepts_a_node_id() {
    assert_eq!(queried_node_id("12"), Some(12));
    assert_eq!(queried_node_id("#12"), Some(12));
    assert_eq!(queried_node_id("  7 "), Some(7));
    assert_eq!(queried_node_id("0"), Some(0));
}

#[test]
fn go_to_node_leaves_text_queries_alone() {
    assert_eq!(queried_node_id(""), None);
    assert_eq!(queried_node_id("#"), None);
    assert_eq!(queried_node_id("12 notes"), None);
    assert_eq!(queried_node_id("v2"), None);
    assert_eq!(queried_node_id("Q4 2026"), None);
    assert_eq!(queried_node_id("-3"), None);
}

#[test]
fn elide_shortens_on_a_word_boundary_and_counts_characters() {
    assert_eq!(elide("short", 80), "short");
    assert_eq!(elide("one two three four", 11), "one two…");
    // Never slices a multi-byte character in half.
    let emdash = "→ ".repeat(200);
    let out = elide(&emdash, 40);
    assert!(out.ends_with('…'));
    assert!(out.chars().count() <= 41);
    // Exactly at the limit is left alone.
    let exact: String = "a".repeat(80);
    assert_eq!(elide(&exact, 80), exact);
    assert!(elide(&"a".repeat(81), 80).ends_with('…'));
}

#[test]
fn an_id_match_sorts_above_any_fuzzy_score() {
    let best_fuzzy = fuzzy_score("2", "2026 plans", "2026 plans").unwrap();
    assert!(i32::MIN < best_fuzzy);
    // A card hit sits just above a node hit, so when one number names both,
    // the node still leads — but both are still ahead of every fuzzy row.
    assert!(i32::MIN < i32::MIN + 1 && i32::MIN + 1 < best_fuzzy);
}

#[test]
fn a_card_row_is_labelled_by_its_title_then_its_first_real_line() {
    assert_eq!(card_label("Has a title", "body text"), "Has a title");

    // No title: the first non-empty line, with markdown ornament stripped.
    assert_eq!(card_label("", "\n\n### The real first line\nmore"), "The real first line");
    assert_eq!(card_label("", "- a bullet"), "a bullet");

    // Nothing at all is honest rather than blank.
    assert_eq!(card_label("", "   \n\n"), "(untitled card)");

    // Long lines are truncated by characters, not bytes.
    let body = "é".repeat(200);
    let label = card_label("", &body);
    assert!(label.ends_with('…'));
    assert_eq!(label.chars().count(), 61);
}

#[test]
fn fuzzy_ranks_title_substring_over_subsequence_over_path() {
    // Empty query matches anything.
    assert!(fuzzy_score("", "anything", "anything\npath").is_some());
    // A title substring beats a subsequence match.
    let sub = fuzzy_score("mon", "monday 7/20", "monday 7/20\n2026 › july").unwrap();
    let seq = fuzzy_score("mnd", "monday 7/20", "monday 7/20\n2026 › july").unwrap();
    assert!(sub < seq, "substring {sub} should rank better than subsequence {seq}");
    // An earlier substring ranks better than a later one.
    let early = fuzzy_score("july", "july", "july\n2026").unwrap();
    let late = fuzzy_score("july", "week of july", "week of july\n2026").unwrap();
    assert!(early < late);
    // Matching only via the path still scores, but worse than a title hit.
    let path_only = fuzzy_score("2026", "monday", "monday\n2026 › july").unwrap();
    assert!(path_only > seq);
    // A query whose chars aren't all present doesn't match.
    assert!(fuzzy_score("xyz", "monday", "monday\njuly").is_none());
}

#[test]
fn subseq_requires_in_order_chars() {
    assert!(subseq_score("abc", "aXbXc").is_some());
    assert!(subseq_score("cba", "aXbXc").is_none());
    assert!(subseq_score("abcd", "abc").is_none());
}

#[test]
fn fuzzy_scores_follow_their_bands_exactly() {
    assert_eq!(fuzzy_score("", "x", "y"), Some(1000));
    assert_eq!(fuzzy_score("plans", "2026 plans", ""), Some(5));
    // The title position is counted in bytes, as `str::find` reports it.
    assert_eq!(fuzzy_score("b", "éb", ""), Some(2));
    assert_eq!(fuzzy_score("ac", "abc", ""), Some(102));
    assert_eq!(fuzzy_score("zz", "abc", "x zz"), Some(400));
    assert_eq!(fuzzy_score("zy", "abc", "z-y"), Some(502));
    assert_eq!(fuzzy_score("q", "abc", "def"), None);
}

#[test]
fn subseq_score_is_where_the_earliest_match_ends() {
    assert_eq!(subseq_score("", "anything"), Some(0));
    assert_eq!(subseq_score("ac", "abc"), Some(2));
    assert_eq!(subseq_score("abc", "aXbXc"), Some(4));
    assert_eq!(subseq_score("aa", "a-a-a"), Some(2));
    assert_eq!(subseq_score("a", ""), None);
}

#[test]
fn a_node_matches_when_the_query_is_in_order_somewhere() {
    // In order in the title only, in the path only, and in neither.
    assert!(fuzzy_score("mdy", "monday", "").is_some());
    assert!(fuzzy_score("jly", "monday", "2026 / july").is_some());
    assert!(fuzzy_score("ydm", "monday", "monday").is_none());
}

#[test]
fn group_ids_need_their_g() {
    assert_eq!(queried_group_id("g146"), Some(146));
    assert_eq!(queried_group_id("#G7"), Some(7));
    assert_eq!(queried_group_id("  g0 "), Some(0));
    assert_eq!(queried_group_id("146"), None);
    assert_eq!(queried_group_id("g"), None);
    assert_eq!(queried_group_id("g1x"), None);
}

#[test]
fn saved_views_are_named_by_their_filters() {
    assert_eq!(describe_find(None, None, "", ""), "Saved view");
    assert_eq!(
        describe_find(Some("work"), Some("status"), " done ", " hello "),
        "#work · status:: done · \u{201c}hello\u{201d}"
    );
    assert_eq!(describe_find(None, Some("due"), "  ", ""), "has due::");
    assert_eq!(describe_find(None, None, "", "  plan  "), "\u{201c}plan\u{201d}");
}

#[test]
fn a_row_label_is_never_blank() {
    assert_eq!(card_label("  ", "x"), "x");
    assert_eq!(card_label("", "\t\n  \n"), "(untitled card)");
    assert_eq!(card_label("", "> # quoted"), "quoted");
    let long = "word ".repeat(30);
    let label = card_label("", &long);
    assert_eq!(label.chars().count(), 61);
    assert!(label.ends_with('…'));
}

#[test]
fn extracting_keeps_the_body_around_the_selection() {
    let body: Vec<char> = "ab\ncd".chars().collect();
    let (taken, head, tail) = split_for_extract(&body, 1, 4).unwrap();
    assert_eq!(taken, "b\nc");
    assert_eq!(head, "a\n");
    assert_eq!(tail, "\nd");
}
