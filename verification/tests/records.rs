use pruning_radix_trie::completion::Completion;
use pruning_radix_trie::order::{heavier_first, heaviest_first};
use pruning_radix_trie::records::{parse_weight, record_line, LoadError};
use pruning_radix_trie::trie::PruningRadixTrie;

fn listed(found: &Vec<Completion>) -> Vec<(String, usize)> {
    let mut out = Vec::new();
    for c in found.iter() {
        out.push((c.term.as_str().to_string(), *c.count));
    }
    out
}

#[test]
fn weight_field_reads_decimal_digits() {
    assert_eq!(parse_weight("0"), Some(0));
    assert_eq!(parse_weight("42"), Some(42));
    assert_eq!(parse_weight("+7"), Some(7));
    assert_eq!(parse_weight("007"), Some(7));
    assert_eq!(parse_weight(&usize::MAX.to_string()), Some(usize::MAX));
}

#[test]
fn weight_field_rejects_what_is_no_number() {
    assert_eq!(parse_weight(""), None);
    assert_eq!(parse_weight("+"), None);
    assert_eq!(parse_weight("-3"), None);
    assert_eq!(parse_weight("12a"), None);
    assert_eq!(parse_weight(" 1"), None);
    assert_eq!(parse_weight("1.5"), None);
    assert_eq!(parse_weight(&format!("{}0", usize::MAX)), None);
    assert_eq!(parse_weight("99999999999999999999999999"), None);
}

#[test]
fn record_line_joins_term_separator_weight() {
    assert_eq!(record_line("cat", "\t", 5), "cat\t5");
    assert_eq!(record_line("a b", ", ", 120), "a b, 120");
}

#[test]
fn load_line_inserts_the_indexed_fields() {
    let mut trie = PruningRadixTrie::new();
    assert_eq!(trie.load_line("cat\t5", 0, 1, "\t"), Ok(true));
    assert_eq!(trie.load_line("9;x;dog", 2, 0, ";"), Ok(true));
    assert_eq!(
        listed(&trie.lookup_completions("", None)),
        vec![("dog".to_string(), 9), ("cat".to_string(), 5)]
    );
}

#[test]
fn load_line_skips_short_records() {
    let mut trie = PruningRadixTrie::new();
    assert_eq!(trie.load_line("", 0, 1, "\t"), Ok(false));
    assert_eq!(trie.load_line("lonely", 0, 1, "\t"), Ok(false));
    assert!(trie.is_empty());
}

#[test]
fn load_line_reports_each_error() {
    let mut trie = PruningRadixTrie::new();
    assert_eq!(trie.load_line("cat\tfive", 0, 1, "\t"), Err(LoadError::BadWeight));
    assert_eq!(trie.load_line("cat\t5", 0, 2, "\t"), Err(LoadError::MissingField));
    assert_eq!(trie.load_line("cat\t5", 4, 1, "\t"), Err(LoadError::MissingField));
    assert_eq!(trie.load_line("\t5", 0, 1, "\t"), Err(LoadError::EmptyTerm));
    assert!(trie.is_empty());
}

#[test]
fn load_fields_takes_split_records() {
    let mut trie = PruningRadixTrie::new();
    let fields = vec!["car".to_string(), "3".to_string()];
    assert_eq!(trie.load_fields(&fields, 0, 1), Ok(true));
    assert_eq!(trie.load_fields(&fields, 0, 1), Ok(true));
    assert_eq!(listed(&trie.lookup_completions("car", None)), vec![("car".to_string(), 6)]);
}

#[test]
fn saved_lines_come_heaviest_first() {
    let mut trie = PruningRadixTrie::new();
    trie.add_completion("car", 3);
    trie.add_completion("dog", 1);
    trie.add_completion("cat", 5);
    trie.add_completion("cart", 2);
    assert_eq!(trie.save_lines("\t"), vec!["cat\t5", "car\t3", "cart\t2", "dog\t1"]);
}

#[test]
fn sorted_entries_keep_every_term() {
    let mut trie = PruningRadixTrie::new();
    trie.add_completion("b", 2);
    trie.add_completion("a", 9);
    trie.add_completion("c", 4);
    assert_eq!(
        listed(&trie.sorted_entries()),
        vec![("a".to_string(), 9), ("c".to_string(), 4), ("b".to_string(), 2)]
    );
}

#[test]
fn saved_lines_load_back_to_the_same_dictionary() {
    let mut trie = PruningRadixTrie::new();
    trie.add_completion("alpha", 10);
    trie.add_completion("alp", 4);
    trie.add_completion("beta", 10);
    trie.add_completion("alpha", 1);
    let lines = trie.save_lines("|");
    let mut again = PruningRadixTrie::new();
    for line in lines.iter() {
        assert_eq!(again.load_line(line, 0, 1, "|"), Ok(true));
    }
    assert_eq!(again.len(), trie.len());
    assert_eq!(
        listed(&again.lookup_completions("", None)),
        listed(&trie.lookup_completions("", None))
    );
    assert_eq!(
        listed(&again.lookup_completions("", None)),
        vec![("alpha".to_string(), 11), ("beta".to_string(), 10), ("alp".to_string(), 4)]
    );
}

#[test]
fn heaviest_first_sorts_by_weight() {
    let weights: [usize; 4] = [3, 11, 7, 1];
    let given = vec![
        Completion::new("c".into(), &weights[0]),
        Completion::new("a".into(), &weights[1]),
        Completion::new("d".into(), &weights[2]),
        Completion::new("b".into(), &weights[3]),
    ];
    assert_eq!(
        listed(&heaviest_first(given)),
        vec![
            ("a".to_string(), 11),
            ("d".to_string(), 7),
            ("c".to_string(), 3),
            ("b".to_string(), 1)
        ]
    );
}

#[test]
fn heavier_first_orders_two_completions() {
    let light: usize = 2;
    let heavy: usize = 9;
    let a = Completion::new("a".into(), &light);
    let b = Completion::new("b".into(), &heavy);
    assert_eq!(heavier_first(&b, &a), std::cmp::Ordering::Less);
    assert_eq!(heavier_first(&a, &b), std::cmp::Ordering::Greater);
    assert_eq!(heavier_first(&a, &a), std::cmp::Ordering::Equal);
}

#[test]
fn saved_lines_of_equal_weight_come_by_term() {
    let mut trie = PruningRadixTrie::new();
    trie.add_completion("pear", 4);
    trie.add_completion("apple", 4);
    trie.add_completion("fig", 9);
    trie.add_completion("plum", 4);
    assert_eq!(trie.save_lines(","), vec!["fig,9", "apple,4", "pear,4", "plum,4"]);
    assert_eq!(trie.save_lines(",").len(), trie.len());
}

#[test]
fn heaviest_first_keeps_the_order_of_equal_weights() {
    let weights: [usize; 4] = [5, 5, 8, 5];
    let given = vec![
        Completion::new("z".into(), &weights[0]),
        Completion::new("a".into(), &weights[1]),
        Completion::new("m".into(), &weights[2]),
        Completion::new("k".into(), &weights[3]),
    ];
    assert_eq!(
        listed(&heaviest_first(given)),
        vec![
            ("m".to_string(), 8),
            ("z".to_string(), 5),
            ("a".to_string(), 5),
            ("k".to_string(), 5)
        ]
    );
}

#[test]
fn record_line_writes_the_plain_numeral() {
    assert_eq!(record_line("t", ":", 0), "t:0");
    assert_eq!(record_line("t", ":", 1000), "t:1000");
    assert_eq!(record_line("t", ":", usize::MAX), format!("t:{}", usize::MAX));
}

#[test]
fn load_lines_stops_at_the_first_bad_record() {
    let mut trie = PruningRadixTrie::new();
    let lines = vec![
        "cat\t5".to_string(),
        "short".to_string(),
        "car\t3".to_string(),
        "dog\tmany".to_string(),
        "cow\t8".to_string(),
    ];
    assert_eq!(trie.load_lines(&lines, 0, 1, "\t"), Err((3, LoadError::BadWeight)));
    assert_eq!(
        listed(&trie.lookup_completions("", None)),
        vec![("cat".to_string(), 5), ("car".to_string(), 3)]
    );
}

#[test]
fn load_lines_loads_every_good_record() {
    let mut trie = PruningRadixTrie::new();
    let lines = vec!["a;1".to_string(), "b;2".to_string(), "a;4".to_string()];
    assert_eq!(trie.load_lines(&lines, 0, 1, ";"), Ok(()));
    assert_eq!(trie.len(), 2);
    assert_eq!(
        listed(&trie.lookup_completions("", None)),
        vec![("a".to_string(), 5), ("b".to_string(), 2)]
    );
}
