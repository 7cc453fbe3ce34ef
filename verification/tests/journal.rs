use trellis::journal::{
    is_dash_line, is_day_divider, journal_cards, journal_outline, month_name, parse_date,
    plan_journal, split_blocks,
    truncate,
};

fn strings(v: &[&str]) -> Vec<String> {
    v.iter().map(|s| s.to_string()).collect()
}

#[test]
fn dash_lines_need_five_dashes() {
    assert!(is_dash_line("-----"));
    assert!(is_dash_line("----------"));
    assert!(!is_dash_line("----"));
    assert!(!is_dash_line("--x--"));
    assert!(!is_dash_line(""));
}

#[test]
fn months_are_named_or_numbered() {
    assert_eq!(month_name(1), "January");
    assert_eq!(month_name(12), "December");
    assert_eq!(month_name(0), "Month 0");
    assert_eq!(month_name(13), "Month 13");
}

#[test]
fn truncation_counts_characters() {
    assert_eq!(truncate("abc", 3), "abc");
    assert_eq!(truncate("héllo", 2), "hé…");
    assert_eq!(truncate("", 0), "");
}

#[test]
fn dates_are_the_first_m_d_yyyy_token() {
    assert_eq!(parse_date("Monday 7/20/2026:"), Some((7, 20, 2026)));
    assert_eq!(parse_date("x 1/2/1900 3/4/2001"), Some((3, 4, 2001)));
    assert_eq!(parse_date("13/1/2020"), None);
    assert_eq!(parse_date("1/32/2020"), None);
    assert_eq!(parse_date("1/2/20x0"), None);
    assert_eq!(parse_date("no date"), None);
}

#[test]
fn dividers_start_with_a_weekday_and_hold_a_date() {
    assert!(is_day_divider("Monday 7/20/2026"));
    assert!(is_day_divider("  TUESDAY, 7/21/2026  "));
    assert!(is_day_divider("Wedn 7/22/2026"));
    assert!(!is_day_divider("Meeting 7/20/2026"));
    assert!(!is_day_divider("monday"));
    assert!(!is_day_divider(""));
}

#[test]
fn blocks_split_on_blank_and_dash_lines() {
    let lines = strings(&["a  ", "", "b", "-----", "c", "d\t", "   ", ""]);
    let got = split_blocks(&lines);
    assert_eq!(
        got,
        vec![strings(&["a"]), strings(&["b"]), strings(&["c", "d"])]
    );
    assert!(split_blocks(&strings(&["", "-----", " "])).is_empty());
}

#[test]
fn a_journal_imports_newest_first() {
    let text = "Reference notes\n\nmore\nMonday 7/20/2026\nfirst day\n\nsecond block\nWednesday 7/22/2026:\nlater day\nTuesday 7/21/2026\n-----\nmiddle\n";
    let plan = plan_journal(text);
    assert_eq!(plan.reference, vec![strings(&["Reference notes"]), strings(&["more"])]);
    assert_eq!(plan.days.len(), 3);
    let dates: Vec<(i32, u32, u32)> = plan.days.iter().map(|d| (d.year, d.month, d.day)).collect();
    assert_eq!(dates, vec![(2026, 7, 22), (2026, 7, 21), (2026, 7, 20)]);
    assert_eq!(plan.days[0].title, "Wednesday 7/22/2026");
    assert_eq!(plan.days[0].blocks, vec![strings(&["later day"])]);
    assert_eq!(plan.days[2].blocks, vec![strings(&["first day"]), strings(&["second block"])]);
    assert_eq!(plan.days[1].blocks, vec![strings(&["middle"])]);
}

#[test]
fn entries_of_one_date_keep_file_order() {
    let text = "Fri 1/2/2026\nA\nSat 1/2/2026\nB\n";
    let plan = plan_journal(text);
    assert_eq!(plan.days.len(), 2);
    assert_eq!(plan.days[0].blocks, vec![strings(&["A"])]);
    assert_eq!(plan.days[1].blocks, vec![strings(&["B"])]);
    assert!(plan.reference.is_empty());
}

#[test]
fn journal_cards_fill_two_columns_with_titled_blocks() {
    let blocks = vec![
        strings(&["Groceries", "milk", "eggs"]),
        strings(&["A very long first line that goes well past the forty-two character cut"]),
        strings(&["Third"]),
    ];
    let cards = journal_cards(&blocks);
    assert_eq!(cards.len(), 3);
    assert_eq!((cards[0].col, cards[0].row), (0, 0));
    assert_eq!((cards[1].col, cards[1].row), (1, 0));
    assert_eq!((cards[2].col, cards[2].row), (0, 1));
    assert_eq!(cards[0].title, "Groceries");
    assert_eq!(cards[0].body, "Groceries  \nmilk  \neggs");
    assert_eq!(cards[1].title, "A very long first line that goes well past…");
    assert_eq!(cards[1].title.chars().count(), 43);
    assert_eq!(cards[2].body, "Third");
    assert!(journal_cards(&Vec::new()).is_empty());
}

#[test]
fn the_outline_nests_days_under_months_under_years() {
    let text = "Intro line\n\nMonday 7/20/2026:\nfirst\n\nFriday 6/5/2026:\njune\nTuesday 7/21/2026:\nnewer\nThursday 12/31/2025:\nold year\n";
    let plan = plan_journal(text);
    let nodes = journal_outline(&plan);
    let shape: Vec<(Option<usize>, &str)> =
        nodes.iter().map(|n| (n.parent, n.title.as_str())).collect();
    assert_eq!(
        shape,
        vec![
            (None, "Reference"),
            (None, "2026"),
            (Some(1), "July"),
            (Some(2), "Tuesday 7/21/2026"),
            (Some(2), "Monday 7/20/2026"),
            (Some(1), "June"),
            (Some(5), "Friday 6/5/2026"),
            (None, "2025"),
            (Some(7), "December"),
            (Some(8), "Thursday 12/31/2025"),
        ]
    );
    assert_eq!(nodes[0].blocks, vec![strings(&["Intro line"])]);
    assert!(nodes[1].blocks.is_empty() && nodes[2].blocks.is_empty());
    assert_eq!(nodes[4].blocks, vec![strings(&["first"])]);
    assert_eq!(nodes[9].blocks, vec![strings(&["old year"])]);
}

#[test]
fn an_outline_without_a_preamble_starts_at_the_newest_year() {
    let plan = plan_journal("Fri 1/2/2026\nA\n");
    let nodes = journal_outline(&plan);
    assert_eq!(nodes.len(), 3);
    assert_eq!((nodes[0].parent, nodes[0].title.as_str()), (None, "2026"));
    assert_eq!((nodes[1].parent, nodes[1].title.as_str()), (Some(0), "January"));
    assert_eq!((nodes[2].parent, nodes[2].title.as_str()), (Some(1), "Fri 1/2/2026"));
}
