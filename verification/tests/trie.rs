use std::collections::BTreeSet;
use trie_rs::trie::Trie;

fn sample() -> Trie<u32> {
    let mut trie = Trie::new();
    assert_eq!(trie.add_str("apple", 1), None);
    assert_eq!(trie.add_str("app", 2), None);
    assert_eq!(trie.add_str("apricot", 3), None);
    assert_eq!(trie.add_str("banana", 4), None);
    trie
}

fn found(trie: &mut Trie<u32>, prefix: &str) -> BTreeSet<(Vec<u8>, u32)> {
    let mut out = BTreeSet::new();
    let mut n = 0;
    let mut it = trie.find_str(prefix);
    while let Some((key, data)) = it.next() {
        out.insert((key, *data));
        n += 1;
    }
    assert_eq!(out.len(), n, "a key was yielded twice");
    out
}

fn matched(trie: &mut Trie<u32>, query: &str) -> Vec<(Vec<u8>, u32)> {
    let mut out = Vec::new();
    let mut it = trie.find_matches_prefixes_str(query);
    while let Some((key, data)) = it.next() {
        out.push((key.to_vec(), *data));
    }
    out
}

fn drained(trie: Trie<u32>) -> Vec<u32> {
    let mut out = Vec::new();
    let mut it = trie.into_iter();
    while let Some(data) = it.next() {
        out.push(data);
    }
    out.sort();
    out
}

fn entry(key: &str, data: u32) -> (Vec<u8>, u32) {
    (key.as_bytes().to_vec(), data)
}

#[test]
fn round_trip_returns_every_inserted_payload() {
    let keys = ["", "a", "ab", "abc", "abd", "b", "ba", "hello", "help", "held", "zebra"];
    let mut trie = Trie::new();
    for (i, key) in keys.iter().enumerate() {
        assert_eq!(trie.add_str(key, i), None);
        assert_eq!(trie.len(), i + 1);
    }
    for (i, key) in keys.iter().enumerate() {
        assert_eq!(trie.get_str(key), Some(&i));
        assert_eq!(trie.get(key.as_bytes()), Some(&i));
    }
    assert_eq!(trie.len(), keys.len());
    assert_eq!(trie.get_str("he"), None);
    assert_eq!(trie.get_str("helper"), None);
    assert_eq!(trie.get_str("c"), None);
}

#[test]
fn overwrite_returns_prior_payload_and_keeps_count() {
    let mut trie = sample();
    let nodes = trie.n_nodes();
    assert_eq!(trie.add_str("app", 20), Some(2));
    assert_eq!(trie.len(), 4);
    assert_eq!(trie.n_nodes(), nodes);
    assert_eq!(trie.get_str("app"), Some(&20));
    assert_eq!(trie.add(b"app", 21), Some(20));
    assert_eq!(trie.get_str("apple"), Some(&1));
}

#[test]
fn delete_then_lookup_reports_absence() {
    let mut trie = sample();
    assert_eq!(trie.del_str("apple"), Some(1));
    assert_eq!(trie.get_str("apple"), None);
    assert_eq!(trie.len(), 3);
    assert_eq!(trie.get_str("app"), Some(&2));
    assert_eq!(trie.get_str("apricot"), Some(&3));
    assert_eq!(trie.get_str("banana"), Some(&4));
    assert_eq!(trie.del(b"banana"), Some(4));
    assert_eq!(trie.get(b"banana"), None);
    assert_eq!(trie.len(), 2);
}

#[test]
fn delete_of_absent_key_changes_nothing() {
    let mut trie = sample();
    let (len, nodes) = (trie.len(), trie.n_nodes());
    for key in ["", "a", "ap", "appl", "apples", "b", "bananas", "cherry"] {
        assert_eq!(trie.del_str(key), None);
        assert_eq!(trie.len(), len);
        assert_eq!(trie.n_nodes(), nodes);
    }
    assert_eq!(trie.del_str("app"), Some(2));
    assert_eq!(trie.del_str("app"), None);
    assert_eq!(trie.len(), len - 1);
}

#[test]
fn node_count_follows_splits_and_merges() {
    let mut trie = Trie::new();
    assert_eq!(trie.n_nodes(), 0);
    trie.add_str("apple", 1);
    assert_eq!(trie.n_nodes(), 1);
    trie.add_str("app", 2);
    assert_eq!(trie.n_nodes(), 2);
    trie.add_str("apricot", 3);
    assert_eq!(trie.n_nodes(), 4);
    trie.add_str("banana", 4);
    assert_eq!(trie.n_nodes(), 6);
    assert_eq!(trie.del_str("banana"), Some(4));
    assert_eq!(trie.n_nodes(), 4);
    assert_eq!(trie.del_str("app"), Some(2));
    assert_eq!(trie.n_nodes(), 3);
    assert_eq!(trie.get_str("apple"), Some(&1));
    assert_eq!(trie.del_str("apricot"), Some(3));
    assert_eq!(trie.n_nodes(), 1);
    assert_eq!(trie.get_str("apple"), Some(&1));
    assert_eq!(trie.del_str("apple"), Some(1));
    assert_eq!(trie.n_nodes(), 0);
    assert_eq!(trie.len(), 0);
    assert!(trie.is_empty());
}

#[test]
fn routing_node_stays_when_its_payload_goes() {
    let mut trie = Trie::new();
    trie.add_str("a", 1);
    trie.add_str("ab", 2);
    trie.add_str("ac", 3);
    assert_eq!(trie.n_nodes(), 3);
    assert_eq!(trie.del_str("a"), Some(1));
    assert_eq!(trie.n_nodes(), 3);
    assert_eq!(trie.len(), 2);
    assert_eq!(trie.get_str("a"), None);
    assert_eq!(trie.get_str("ab"), Some(&2));
    assert_eq!(trie.get_str("ac"), Some(&3));
    assert_eq!(trie.add_str("a", 9), None);
    assert_eq!(trie.n_nodes(), 3);
}

#[test]
fn payload_bearing_parent_survives_removal_of_its_last_child() {
    let mut trie = Trie::new();
    trie.add_str("a", 1);
    trie.add_str("ab", 2);
    assert_eq!(trie.del_str("ab"), Some(2));
    assert_eq!(trie.get_str("a"), Some(&1));
    assert_eq!(trie.len(), 1);
    assert_eq!(trie.n_nodes(), 1);
}

#[test]
fn payload_bearing_inner_node_survives_removal_of_its_last_child() {
    let mut trie = Trie::new();
    trie.add_str("x", 1);
    trie.add_str("xa", 2);
    trie.add_str("xab", 3);
    assert_eq!(trie.n_nodes(), 3);
    assert_eq!(trie.del_str("xab"), Some(3));
    assert_eq!(trie.get_str("xa"), Some(&2));
    assert_eq!(trie.get_str("x"), Some(&1));
    assert_eq!(trie.len(), 2);
    assert_eq!(trie.n_nodes(), 2);
}

#[test]
fn empty_key_is_a_key() {
    let mut trie = Trie::new();
    assert_eq!(trie.add(b"", 7), None);
    assert_eq!(trie.len(), 1);
    assert_eq!(trie.n_nodes(), 1);
    assert_eq!(trie.get(b""), Some(&7));
    assert_eq!(trie.add_str("k", 8), None);
    assert_eq!(trie.get(b""), Some(&7));
    assert_eq!(trie.get(b"k"), Some(&8));
    assert_eq!(trie.n_nodes(), 2);
    assert_eq!(trie.del(b""), Some(7));
    assert_eq!(trie.get(b""), None);
    assert_eq!(trie.get(b"k"), Some(&8));
    assert_eq!(trie.n_nodes(), 1);
}

#[test]
fn keys_that_diverge_at_the_first_byte_share_an_empty_root() {
    let mut trie = Trie::new();
    trie.add_str("abc", 1);
    trie.add_str("xyz", 2);
    assert_eq!(trie.n_nodes(), 3);
    assert_eq!(trie.get_str("abc"), Some(&1));
    assert_eq!(trie.get_str("xyz"), Some(&2));
    assert_eq!(trie.get_str(""), None);
    assert_eq!(trie.del_str("xyz"), Some(2));
    assert_eq!(trie.n_nodes(), 1);
    assert_eq!(trie.get_str("abc"), Some(&1));
}

#[test]
fn get_mut_writes_through() {
    let mut trie = sample();
    *trie.get_mut(b"apricot").unwrap() += 100;
    assert_eq!(trie.get_str("apricot"), Some(&103));
    if let Some(data) = trie.get_str_mut("app") {
        *data = 0;
    }
    assert_eq!(trie.get_str("app"), Some(&0));
    assert!(trie.get_mut(b"ap").is_none());
    assert!(trie.get_str_mut("applesauce").is_none());
    assert!(trie.get_str_mut("cherry").is_none());
    assert_eq!(trie.len(), 4);
    assert_eq!(trie.n_nodes(), 6);
    assert_eq!(trie.get_str("apple"), Some(&1));
    assert_eq!(trie.get_str("banana"), Some(&4));
}

#[test]
fn prefix_enumeration_yields_the_keys_under_the_prefix() {
    let mut trie = sample();
    let expected: BTreeSet<_> =
        [entry("apple", 1), entry("app", 2), entry("apricot", 3)].into_iter().collect();
    assert_eq!(found(&mut trie, "ap"), expected);
    assert_eq!(found(&mut trie, "a"), expected);
    assert!(found(&mut trie, "z").is_empty());
    assert_eq!(found(&mut trie, "").len(), 4);
    let app: BTreeSet<_> = [entry("apple", 1), entry("app", 2)].into_iter().collect();
    assert_eq!(found(&mut trie, "app"), app);
    let apple: BTreeSet<_> = [entry("apple", 1)].into_iter().collect();
    assert_eq!(found(&mut trie, "appl"), apple);
    assert_eq!(found(&mut trie, "apple"), apple);
    assert!(found(&mut trie, "apples").is_empty());
    assert!(found(&mut trie, "apx").is_empty());
    let banana: BTreeSet<_> = [entry("banana", 4)].into_iter().collect();
    assert_eq!(found(&mut trie, "b"), banana);
    assert_eq!(found(&mut trie, "banana"), banana);
    assert_eq!(trie.len(), 4);
}

#[test]
fn prefix_enumeration_by_bytes_agrees_with_text() {
    let mut trie = sample();
    let mut out = BTreeSet::new();
    let mut it = trie.find(b"apr");
    while let Some((key, data)) = it.next() {
        out.insert((key, *data));
    }
    let expected: BTreeSet<_> = [entry("apricot", 3)].into_iter().collect();
    assert_eq!(out, expected);
}

#[test]
fn exhausted_prefix_iterator_stays_exhausted() {
    let mut trie = sample();
    let mut it = trie.find_str("b");
    assert!(it.next().is_some());
    assert!(it.next().is_none());
    assert!(it.next().is_none());
}

#[test]
fn reverse_prefix_matching_yields_shallowest_first() {
    let mut trie = Trie::new();
    trie.add_str("a", 1);
    trie.add_str("ap", 2);
    trie.add_str("app", 3);
    assert_eq!(
        matched(&mut trie, "application"),
        vec![entry("a", 1), entry("ap", 2), entry("app", 3)]
    );
    assert_eq!(matched(&mut trie, "ap"), vec![entry("a", 1), entry("ap", 2)]);
    assert_eq!(matched(&mut trie, "a"), vec![entry("a", 1)]);
    assert!(matched(&mut trie, "").is_empty());
    assert!(matched(&mut trie, "b").is_empty());
}

#[test]
fn reverse_prefix_matching_takes_literal_prefixes_only() {
    let mut trie = sample();
    assert_eq!(matched(&mut trie, "application"), vec![entry("app", 2)]);
    assert_eq!(matched(&mut trie, "apple"), vec![entry("app", 2), entry("apple", 1)]);
    assert_eq!(matched(&mut trie, "applesauce"), vec![entry("app", 2), entry("apple", 1)]);
    assert_eq!(matched(&mut trie, "apricots"), vec![entry("apricot", 3)]);
    assert!(matched(&mut trie, "apric").is_empty());
    assert!(matched(&mut trie, "ap").is_empty());
    assert_eq!(matched(&mut trie, "banana"), vec![entry("banana", 4)]);
    assert!(matched(&mut trie, "cherry").is_empty());
}

#[test]
fn reverse_prefix_matching_sees_the_empty_key() {
    let mut trie = Trie::new();
    trie.add_str("", 0);
    trie.add_str("ab", 2);
    assert_eq!(matched(&mut trie, "abc"), vec![entry("", 0), entry("ab", 2)]);
    assert_eq!(matched(&mut trie, ""), vec![entry("", 0)]);
    assert_eq!(matched(&mut trie, "x"), vec![entry("", 0)]);
    let mut it = trie.find_matches_prefixes(b"ab");
    assert_eq!(it.next(), Some((&b""[..], &0)));
    assert_eq!(it.next(), Some((&b"ab"[..], &2)));
    assert_eq!(it.next(), None);
    assert_eq!(it.next(), None);
}

#[test]
fn empty_trie_reports_absence_everywhere() {
    let mut trie: Trie<u32> = Trie::new();
    assert!(trie.is_empty());
    assert_eq!(trie.len(), 0);
    assert_eq!(trie.n_nodes(), 0);
    assert_eq!(trie.get(b"a"), None);
    assert_eq!(trie.get_str(""), None);
    assert!(trie.get_mut(b"a").is_none());
    assert!(trie.get_str_mut("a").is_none());
    assert_eq!(trie.del(b"a"), None);
    assert_eq!(trie.del_str(""), None);
    assert!(found(&mut trie, "").is_empty());
    assert!(found(&mut trie, "a").is_empty());
    assert!(matched(&mut trie, "abc").is_empty());
    assert!(trie.is_empty());
    assert!(drained(trie).is_empty());
}

#[test]
fn default_is_empty() {
    let trie: Trie<String> = Trie::default();
    assert!(trie.is_empty());
    assert_eq!(trie.len(), 0);
    assert_eq!(trie.n_nodes(), 0);
}

#[test]
fn drain_yields_every_payload_once() {
    let trie = sample();
    let len = trie.len();
    let out = drained(trie);
    assert_eq!(out.len(), len);
    assert_eq!(out, vec![1, 2, 3, 4]);
}

#[test]
fn drain_covers_deep_and_wide_tries() {
    let mut trie = Trie::new();
    let mut expected = Vec::new();
    let mut n = 0u32;
    for a in 0..=255u8 {
        for tail in [&[][..], &[0][..], &[0, 1][..], &[7, 7, 7][..]] {
            let mut key = vec![a];
            key.extend_from_slice(tail);
            assert_eq!(trie.add(&key, n), None);
            expected.push(n);
            n += 1;
        }
    }
    assert_eq!(trie.len(), expected.len());
    let mut it = trie.find(&[9]);
    let mut under = 0;
    while it.next().is_some() {
        under += 1;
    }
    assert_eq!(under, 4);
    assert_eq!(drained(trie), expected);
}

#[test]
fn counts_agree_with_a_full_walk_after_mixed_updates() {
    let words = [
        "romane", "romanus", "romulus", "rubens", "ruber", "rubicon", "rubicundus", "r", "ro",
        "rom", "", "x", "xy", "xyz",
    ];
    let mut trie = Trie::new();
    for (i, w) in words.iter().enumerate() {
        trie.add_str(w, i as u32);
    }
    assert_eq!(trie.len(), words.len());
    assert_eq!(found(&mut trie, "").len(), words.len());
    for w in ["romanus", "r", "", "xy", "rubicon", "absent"] {
        trie.del_str(w);
    }
    let left: Vec<&str> = words
        .iter()
        .copied()
        .filter(|w| !["romanus", "r", "", "xy", "rubicon"].contains(w))
        .collect();
    assert_eq!(trie.len(), left.len());
    let all = found(&mut trie, "");
    assert_eq!(all.len(), left.len());
    for w in &left {
        let i = words.iter().position(|x| x == w).unwrap() as u32;
        assert!(all.contains(&entry(w, i)));
        assert_eq!(trie.get_str(w), Some(&i));
    }
    assert!(trie.n_nodes() >= trie.len());
    assert_eq!(drained(trie).len(), left.len());
}

#[test]
fn text_keys_are_their_utf8_bytes() {
    let mut trie = Trie::new();
    trie.add_str("héllo", 1);
    assert_eq!(trie.get("héllo".as_bytes()), Some(&1));
    assert_eq!(trie.get(&[b'h', 0xc3, 0xa9, b'l', b'l', b'o']), Some(&1));
    trie.add(&[b'h', 0xc3], 2);
    assert_eq!(trie.n_nodes(), 2);
    assert_eq!(matched(&mut trie, "héllo!"), vec![(vec![b'h', 0xc3], 2), entry("héllo", 1)]);
}
