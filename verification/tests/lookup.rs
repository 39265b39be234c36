use pruning_radix_trie::completion::Completion;
use pruning_radix_trie::trie::PruningRadixTrie;

fn pairs(found: &Vec<Completion>) -> Vec<(String, usize)> {
    let mut out = Vec::new();
    for c in found.iter() {
        out.push((c.term.as_str().to_string(), *c.count));
    }
    out
}

fn filled(entries: &[(&str, usize)]) -> PruningRadixTrie {
    let mut trie = PruningRadixTrie::new();
    for (term, weight) in entries.iter() {
        trie.add_completion(term, *weight);
    }
    trie
}

fn own(expected: &[(&str, usize)]) -> Vec<(String, usize)> {
    let mut out = Vec::new();
    for (term, weight) in expected.iter() {
        out.push((term.to_string(), *weight));
    }
    out
}

#[test]
fn prefix_lookup_is_ordered_by_weight() {
    let trie = filled(&[("cat", 5), ("car", 3), ("cart", 2), ("dog", 1)]);
    let found = trie.lookup_completions("ca", None);
    assert_eq!(pairs(&found), own(&[("cat", 5), ("car", 3), ("cart", 2)]));
}

#[test]
fn repeated_insert_accumulates() {
    let trie = filled(&[("cat", 5), ("cat", 5)]);
    let found = trie.lookup_completions("cat", None);
    assert_eq!(pairs(&found), own(&[("cat", 10)]));
    assert_eq!(trie.len(), 1);
}

#[test]
fn empty_trie_has_no_completions() {
    let trie = PruningRadixTrie::new();
    assert!(trie.lookup_completions("anything", Some(5)).is_empty());
    assert!(trie.is_empty());
    assert_eq!(trie.len(), 0);
}

#[test]
fn top_k_keeps_the_heaviest() {
    let trie = filled(&[("a", 1), ("ab", 100), ("abc", 2), ("abd", 3)]);
    let found = trie.lookup_completions("ab", Some(2));
    assert_eq!(pairs(&found), own(&[("ab", 100), ("abd", 3)]));
}

#[test]
fn empty_prefix_lists_everything() {
    let trie = filled(&[("cat", 5), ("car", 3), ("cart", 2), ("dog", 1)]);
    let found = trie.lookup_completions("", None);
    assert_eq!(pairs(&found), own(&[("cat", 5), ("car", 3), ("cart", 2), ("dog", 1)]));
    assert_eq!(trie.len(), 4);
    assert!(!trie.is_empty());
}

#[test]
fn equal_weights_are_listed_by_term() {
    let trie = filled(&[("beta", 7), ("alpha", 7), ("gamma", 7), ("alp", 7)]);
    let found = trie.lookup_completions("", None);
    assert_eq!(pairs(&found), own(&[("alp", 7), ("alpha", 7), ("beta", 7), ("gamma", 7)]));
}

#[test]
fn top_k_zero_returns_nothing() {
    let trie = filled(&[("cat", 5), ("car", 3)]);
    assert!(trie.lookup_completions("c", Some(0)).is_empty());
}

#[test]
fn top_k_larger_than_matches_returns_all() {
    let trie = filled(&[("cat", 5), ("car", 3), ("dog", 9)]);
    let found = trie.lookup_completions("ca", Some(10));
    assert_eq!(pairs(&found), own(&[("cat", 5), ("car", 3)]));
}

#[test]
fn split_of_an_edge_keeps_the_longer_term() {
    let trie = filled(&[("cart", 2), ("car", 3)]);
    assert_eq!(pairs(&trie.lookup_completions("", None)), own(&[("car", 3), ("cart", 2)]));
    assert_eq!(pairs(&trie.lookup_completions("cart", None)), own(&[("cart", 2)]));
    assert_eq!(trie.len(), 2);
}

#[test]
fn fork_of_an_edge_keeps_both_terms() {
    let trie = filled(&[("cat", 5), ("car", 3)]);
    assert_eq!(pairs(&trie.lookup_completions("ca", None)), own(&[("cat", 5), ("car", 3)]));
    assert_eq!(pairs(&trie.lookup_completions("c", Some(1))), own(&[("cat", 5)]));
    assert_eq!(trie.len(), 2);
}

#[test]
fn fork_node_becomes_a_term_later() {
    let trie = filled(&[("cat", 5), ("car", 3), ("ca", 4)]);
    assert_eq!(
        pairs(&trie.lookup_completions("c", None)),
        own(&[("cat", 5), ("ca", 4), ("car", 3)])
    );
    assert_eq!(trie.len(), 3);
}

#[test]
fn prefix_that_ends_inside_an_edge_matches() {
    let trie = filled(&[("hello", 4), ("help", 6), ("world", 1)]);
    assert_eq!(pairs(&trie.lookup_completions("hell", None)), own(&[("hello", 4)]));
    assert_eq!(pairs(&trie.lookup_completions("he", None)), own(&[("help", 6), ("hello", 4)]));
    assert!(trie.lookup_completions("hex", None).is_empty());
    assert!(trie.lookup_completions("helloo", None).is_empty());
}

#[test]
fn multi_byte_characters_are_never_split() {
    let trie = filled(&[("é", 1), ("è", 2), ("éa", 3)]);
    assert_eq!(pairs(&trie.lookup_completions("é", None)), own(&[("éa", 3), ("é", 1)]));
    assert_eq!(pairs(&trie.lookup_completions("è", None)), own(&[("è", 2)]));
    assert_eq!(trie.len(), 3);
}

#[test]
fn weight_saturates_at_the_largest_value() {
    let trie = filled(&[("big", usize::MAX - 1), ("big", 5)]);
    assert_eq!(pairs(&trie.lookup_completions("big", None)), own(&[("big", usize::MAX)]));
    assert_eq!(trie.len(), 1);
}

#[test]
fn pruning_survives_a_late_heavy_term() {
    let trie = filled(&[
        ("apple", 1),
        ("apply", 2),
        ("ape", 3),
        ("apex", 4),
        ("application", 50),
        ("apt", 5),
        ("apple", 10),
    ]);
    assert_eq!(
        pairs(&trie.lookup_completions("ap", Some(3))),
        own(&[("application", 50), ("apple", 11), ("apt", 5)])
    );
    assert_eq!(
        pairs(&trie.lookup_completions("app", Some(2))),
        own(&[("application", 50), ("apple", 11)])
    );
    assert_eq!(trie.len(), 6);
}

#[test]
fn term_count_ignores_repeats() {
    let trie = filled(&[("a", 1), ("b", 1), ("a", 1), ("ab", 1), ("b", 1), ("a", 1)]);
    assert_eq!(trie.len(), 3);
    assert_eq!(pairs(&trie.lookup_completions("a", None)), own(&[("a", 3), ("ab", 1)]));
}

#[test]
fn completion_new_keeps_term_and_count() {
    let weight: usize = 8;
    let c = Completion::new("term".into(), &weight);
    assert_eq!(c.term.as_str(), "term");
    assert_eq!(*c.count, 8);
}

#[test]
fn accumulation_moves_a_term_ahead_of_its_siblings() {
    let trie = filled(&[("ba", 9), ("bb", 8), ("bc", 7), ("bc", 5), ("bb", 2)]);
    assert_eq!(pairs(&trie.lookup_completions("b", Some(1))), own(&[("bc", 12)]));
    assert_eq!(pairs(&trie.lookup_completions("b", Some(2))), own(&[("bc", 12), ("bb", 10)]));
    assert_eq!(
        pairs(&trie.lookup_completions("", None)),
        own(&[("bc", 12), ("bb", 10), ("ba", 9)])
    );
}

#[test]
fn deep_heavy_term_beats_shallow_light_ones() {
    let trie = filled(&[("x", 1), ("xa", 2), ("xab", 3), ("xabc", 40), ("xb", 5), ("y", 6)]);
    assert_eq!(pairs(&trie.lookup_completions("", Some(1))), own(&[("xabc", 40)]));
    assert_eq!(
        pairs(&trie.lookup_completions("x", Some(3))),
        own(&[("xabc", 40), ("xb", 5), ("xab", 3)])
    );
    assert_eq!(pairs(&trie.lookup_completions("xa", Some(1))), own(&[("xabc", 40)]));
}

#[test]
fn no_returned_term_is_lighter_than_one_left_out() {
    let entries: [(&str, usize); 8] = [
        ("tea", 4),
        ("ten", 12),
        ("tent", 7),
        ("team", 9),
        ("to", 3),
        ("toast", 15),
        ("top", 1),
        ("tea", 6),
    ];
    let trie = filled(&entries);
    let all = pairs(&trie.lookup_completions("t", None));
    assert_eq!(all.len(), 7);
    for k in 1..8 {
        let found = pairs(&trie.lookup_completions("t", Some(k)));
        assert_eq!(found.len(), k);
        assert_eq!(found[..], all[..k]);
    }
}

#[test]
fn default_is_the_empty_trie() {
    let trie = PruningRadixTrie::default();
    assert!(trie.is_empty());
    assert!(trie.lookup_completions("", None).is_empty());
}

#[test]
fn equal_weights_at_the_cut_are_kept_by_term() {
    let trie = filled(&[("mb", 5), ("ma", 5), ("md", 5), ("mc", 5), ("m", 9)]);
    assert_eq!(pairs(&trie.lookup_completions("m", Some(3))), own(&[("m", 9), ("ma", 5), ("mb", 5)]));
    assert_eq!(pairs(&trie.lookup_completions("m", Some(1))), own(&[("m", 9)]));
    let first = pairs(&trie.lookup_completions("m", Some(4)));
    let second = pairs(&trie.lookup_completions("m", Some(4)));
    assert_eq!(first, second);
    assert_eq!(first, own(&[("m", 9), ("ma", 5), ("mb", 5), ("mc", 5)]));
}
