use config_cli::collect::{collect, Collector};
use config_cli::error::MergeError;
use config_cli::order::{key_le_exec, lex_rel, sort_order, Rel};
use config_cli::source::{copy_pairs, sort_files, sort_paths, SourceFile};

fn chars(s: &str) -> Vec<char> {
    s.chars().collect()
}

fn pairs(items: &[(&str, &str)]) -> Vec<(String, String)> {
    items.iter().map(|(k, v)| (k.to_string(), v.to_string())).collect()
}

fn file(path: &str, items: &[(&str, &str)]) -> SourceFile {
    SourceFile { path: path.to_string(), pairs: pairs(items) }
}

#[test]
fn collect_without_files_is_empty() {
    assert_eq!(collect(&Vec::new()).unwrap(), Vec::<(String, String)>::new());
}

#[test]
fn collect_orders_by_lowercase_key() {
    let files = vec![
        file("1.env", &[("beta", "2"), ("Alpha", "1")]),
        file("2.env", &[("GAMMA", "3"), ("delta", "4")]),
    ];
    assert_eq!(
        collect(&files).unwrap(),
        pairs(&[("Alpha", "1"), ("beta", "2"), ("delta", "4"), ("GAMMA", "3")])
    );
}

#[test]
fn collect_breaks_ties_by_the_key_itself() {
    let files = vec![file("1.env", &[("key", "lower"), ("KEY", "upper"), ("Key", "mixed")])];
    assert_eq!(
        collect(&files).unwrap(),
        pairs(&[("KEY", "upper"), ("Key", "mixed"), ("key", "lower")])
    );
}

#[test]
fn collect_flattens_values() {
    let files = vec![file("1.env", &[("A", "  x\n# comment\ny  ")])];
    assert_eq!(collect(&files).unwrap(), pairs(&[("A", "x||||y")]));
}

#[test]
fn collect_reports_the_repeating_file_then_the_defining_file() {
    let files = vec![
        file("a.env", &[("A", "1"), ("B", "2")]),
        file("b.env", &[("C", "3")]),
        file("c.env", &[("D", "4"), ("B", "5"), ("A", "6")]),
    ];
    assert_eq!(
        collect(&files).unwrap_err(),
        MergeError::DuplicateKey("B".to_string(), "c.env".to_string(), "a.env".to_string())
    );
}

#[test]
fn collect_keys_differ_by_case() {
    let files = vec![file("a.env", &[("A", "1")]), file("b.env", &[("a", "2")])];
    assert_eq!(collect(&files).unwrap(), pairs(&[("A", "1"), ("a", "2")]));
}

#[test]
fn collector_steps() {
    let c = Collector::new();
    let c = c.add(&file("a.env", &[("A", "1")])).unwrap();
    let c = c.add(&file("b.env", &[("B", "2")])).unwrap();
    let err = c.add(&file("c.env", &[("A", "3")])).unwrap_err();
    assert_eq!(
        err,
        MergeError::DuplicateKey("A".to_string(), "c.env".to_string(), "a.env".to_string())
    );
    let c = Collector::new().add(&file("a.env", &[("b", "1"), ("A", "2")])).unwrap();
    assert_eq!(c.finish(), pairs(&[("A", "2"), ("b", "1")]));
}

#[test]
fn collector_repeat_within_one_file() {
    let err = Collector::new().add(&file("a.env", &[("A", "1"), ("A", "2")])).unwrap_err();
    assert_eq!(
        err,
        MergeError::DuplicateKey("A".to_string(), "a.env".to_string(), "a.env".to_string())
    );
}

#[test]
fn sort_paths_is_case_insensitive_and_stable() {
    let paths: Vec<String> =
        ["b.env", "A.env", "a.env", "C.env", "B.env"].iter().map(|p| p.to_string()).collect();
    assert_eq!(sort_paths(&paths), vec!["A.env", "a.env", "b.env", "B.env", "C.env"]);
}

#[test]
fn sort_paths_agrees_with_the_standard_library() {
    let paths: Vec<String> = [
        "src/data/10.env",
        "src/data/2.env",
        "src/Data/1.env",
        "SRC/data/1.env",
        "src/data/Ä.env",
        "src/data/ä.env",
        "src/data/z.env",
        "src/data/Z.env",
        "",
        "src/data/a.env.bak",
    ]
    .iter()
    .map(|p| p.to_string())
    .collect();
    let mut want = paths.clone();
    want.sort_by_key(|p| p.to_lowercase());
    assert_eq!(sort_paths(&paths), want);
}

#[test]
fn sort_files_by_path() {
    let files = vec![file("b.env", &[("B", "2")]), file("A.env", &[("A", "1")])];
    let sorted = sort_files(&files);
    assert_eq!(sorted.len(), 2);
    assert_eq!(sorted[0].path, "A.env");
    assert_eq!(sorted[0].pairs, pairs(&[("A", "1")]));
    assert_eq!(sorted[1].path, "b.env");
    assert_eq!(sorted[1].pairs, pairs(&[("B", "2")]));
}

#[test]
fn copy_pairs_copies() {
    let p = pairs(&[("a", "1"), ("b", "2")]);
    assert_eq!(copy_pairs(&p), p);
}

#[test]
fn source_file_new_orders_pairs_by_key() {
    let f = SourceFile::new("x.env", &pairs(&[("b", "2"), ("a", "1"), ("B", "3")]));
    assert_eq!(f.path, "x.env");
    assert_eq!(f.pairs, pairs(&[("B", "3"), ("a", "1"), ("b", "2")]));
}

#[test]
fn source_file_parse_reads_env_text() {
    let f = SourceFile::parse("x.env", "B=2\nA=1\n# note\nexport C='three'\n").unwrap();
    assert_eq!(f.path, "x.env");
    assert_eq!(f.pairs, pairs(&[("A", "1"), ("B", "2"), ("C", "three")]));
}

#[test]
fn source_file_parse_keeps_line_breaks_of_quoted_values() {
    let f = SourceFile::parse("x.env", "A=\"x\n# comment\ny\"\n").unwrap();
    assert_eq!(f.pairs, pairs(&[("A", "x\n# comment\ny")]));
    assert_eq!(collect(&vec![f]).unwrap(), pairs(&[("A", "x||||y")]));
}

#[test]
fn source_file_parse_rejects_bad_text() {
    let err = SourceFile::parse("x.env", "badly formatted env file").unwrap_err();
    assert_eq!(err, MergeError::IoError("ParseError".to_string()));
    assert_eq!(err.to_string(), "ParseError");
}

#[test]
fn source_file_parse_empty_text() {
    let f = SourceFile::parse("x.env", "").unwrap();
    assert!(f.pairs.is_empty());
}

#[test]
fn lex_rel_orders_by_code_point() {
    assert_eq!(lex_rel(&chars(""), &chars("")), Rel::Same);
    assert_eq!(lex_rel(&chars("abc"), &chars("abc")), Rel::Same);
    assert_eq!(lex_rel(&chars(""), &chars("a")), Rel::Before);
    assert_eq!(lex_rel(&chars("a"), &chars("")), Rel::After);
    assert_eq!(lex_rel(&chars("ab"), &chars("abc")), Rel::Before);
    assert_eq!(lex_rel(&chars("B"), &chars("a")), Rel::Before);
    assert_eq!(lex_rel(&chars("b"), &chars("a")), Rel::After);
    assert_eq!(lex_rel(&chars("z"), &chars("é")), Rel::Before);
    assert_eq!(lex_rel(&chars("\u{ffff}"), &chars("\u{10000}")), Rel::Before);
}

#[test]
fn lex_rel_agrees_with_the_standard_library() {
    let words = ["", "a", "A", "ab", "b", "é", "z", "\u{ffff}", "\u{10000}", "aa", "a\u{0}"];
    for x in words {
        for y in words {
            let want = match x.cmp(y) {
                std::cmp::Ordering::Less => Rel::Before,
                std::cmp::Ordering::Equal => Rel::Same,
                std::cmp::Ordering::Greater => Rel::After,
            };
            assert_eq!(lex_rel(&chars(x), &chars(y)), want, "{:?} and {:?}", x, y);
        }
    }
}

#[test]
fn key_order_uses_the_second_text_on_ties() {
    let a = (chars("k"), chars("K"));
    let b = (chars("k"), chars("k"));
    let c = (chars("l"), chars("A"));
    assert!(key_le_exec(&a, &b));
    assert!(!key_le_exec(&b, &a));
    assert!(key_le_exec(&a, &a));
    assert!(key_le_exec(&b, &c));
    assert!(!key_le_exec(&c, &a));
}

#[test]
fn sort_order_is_stable() {
    let keys = vec![
        (chars("b"), chars("")),
        (chars("a"), chars("")),
        (chars("b"), chars("")),
        (chars("a"), chars("")),
        (chars(""), chars("")),
    ];
    assert_eq!(sort_order(&keys), vec![4, 1, 3, 0, 2]);
    assert_eq!(sort_order(&Vec::new()), Vec::<usize>::new());
}
