use trellis::order::{lex_le_exec, sort_chars};

fn chars(s: &str) -> Vec<char> {
    s.chars().collect()
}

#[test]
fn names_sort_as_strings_do() {
    let v = vec![chars("b"), chars("ab"), chars("a"), chars("é"), chars("B")];
    let got: Vec<String> = sort_chars(&v).into_iter().map(|c| c.into_iter().collect()).collect();
    let mut want: Vec<String> = vec!["b".into(), "ab".into(), "a".into(), "é".into(), "B".into()];
    want.sort();
    assert_eq!(got, want);
    assert!(lex_le_exec(&chars("a"), &chars("ab")));
    assert!(!lex_le_exec(&chars("b"), &chars("ab")));
}
