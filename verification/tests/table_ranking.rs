use log_agg::errors::ErrorTable;
use log_agg::ranking::{entry_before, key_before, ranking, top_errors};
use log_agg::text::chars_of;

fn table_of(counts: &[(&str, usize)]) -> ErrorTable {
    let mut table = ErrorTable::new();
    for (message, count) in counts {
        for _ in 0..*count {
            table.record(message);
        }
    }
    table
}

fn listed(table: &ErrorTable, limit: usize) -> Vec<(String, usize)> {
    top_errors(table, limit).iter().map(|e| (e.text().clone(), e.count())).collect()
}

fn pairs(items: &[(&str, usize)]) -> Vec<(String, usize)> {
    items.iter().map(|(t, c)| (t.to_string(), *c)).collect()
}

#[test]
fn new_table_is_empty() {
    let table = ErrorTable::new();
    assert!(table.is_empty());
    assert_eq!(table.count_of("anything"), 0);
    assert!(table.entries().is_empty());
    assert!(ranking(&table).is_empty());
}

#[test]
fn record_counts_each_sighting() {
    let mut table = ErrorTable::new();
    table.record("Disk full");
    assert!(!table.is_empty());
    assert_eq!(table.count_of("Disk full"), 1);
    table.record("Disk full");
    table.record("Timeout");
    assert_eq!(table.count_of("Disk full"), 2);
    assert_eq!(table.count_of("Timeout"), 1);
    assert_eq!(table.count_of("Other"), 0);
    assert_eq!(table.entries().len(), 2);
}

#[test]
fn messages_are_the_same_whatever_their_case() {
    let mut table = ErrorTable::new();
    table.record("Disk Full");
    table.record("DISK FULL");
    table.record("disk full");
    assert_eq!(table.count_of("dIsK fUlL"), 3);
    let entries = table.entries();
    assert_eq!(entries.len(), 1);
    assert_eq!(entries[0].text(), "Disk Full");
    assert_eq!(entries[0].count(), 3);
    assert_eq!(entries[0].key(), &chars_of("disk full"));
}

#[test]
fn keys_are_lowered_beyond_ascii() {
    let mut table = ErrorTable::new();
    table.record("ÜBERLAUF");
    table.record("überlauf");
    assert_eq!(table.count_of("Überlauf"), 2);
    assert_eq!(table.entries()[0].text(), "ÜBERLAUF");
}

#[test]
fn absorb_takes_key_and_spelling_as_given() {
    let mut table = ErrorTable::new();
    table.absorb(chars_of("k"), "First".to_string(), 4);
    table.absorb(chars_of("k"), "Second".to_string(), 2);
    table.absorb(chars_of("other"), "Other".to_string(), 1);
    assert_eq!(table.count_of_key(&chars_of("k")), 6);
    assert_eq!(table.count_of_key(&chars_of("K")), 0);
    let ranked = ranking(&table);
    assert_eq!(ranked.len(), 2);
    assert_eq!(ranked[0].text(), "First");
    assert_eq!(ranked[0].count(), 6);
    assert_eq!(ranked[1].text(), "Other");
}

#[test]
fn merge_adds_counts_key_by_key() {
    let mut first = table_of(&[("A", 2), ("B", 1)]);
    let second = table_of(&[("b", 3), ("C", 4)]);
    assert!(first.can_merge(&second));
    first.merge(&second);
    assert_eq!(first.count_of("a"), 2);
    assert_eq!(first.count_of("b"), 4);
    assert_eq!(first.count_of("c"), 4);
    let entries = first.entries();
    let mut texts: Vec<&str> = entries.iter().map(|e| e.text().as_str()).collect();
    texts.sort();
    assert_eq!(texts, vec!["A", "B", "C"]);
    assert_eq!(second.count_of("b"), 3);
}

#[test]
fn merge_with_empty_table_changes_nothing() {
    let mut table = table_of(&[("A", 2)]);
    table.merge(&ErrorTable::new());
    assert_eq!(table.count_of("A"), 2);
    assert_eq!(table.entries().len(), 1);
    let mut empty = ErrorTable::new();
    empty.merge(&table);
    assert_eq!(empty.count_of("A"), 2);
}

#[test]
fn counts_that_do_not_fit_are_told() {
    let mut big = ErrorTable::new();
    big.absorb(chars_of("a"), "A".to_string(), usize::MAX - 1);
    let one = table_of(&[("A", 1)]);
    let two = table_of(&[("A", 2)]);
    let other = table_of(&[("B", 2)]);
    assert!(big.can_merge(&one));
    assert!(!big.can_merge(&two));
    assert!(big.can_merge(&other));
    big.merge(&one);
    assert_eq!(big.count_of("a"), usize::MAX);
    assert!(!big.can_merge(&one));
}

#[test]
fn top_five_of_six() {
    let table = table_of(&[("A", 3), ("B", 2), ("C", 2), ("D", 1), ("E", 1), ("F", 1)]);
    let top = listed(&table, 5);
    assert_eq!(top.len(), 5);
    assert_eq!(top[0], ("A".to_string(), 3));
    let mut seconds = vec![top[1].clone(), top[2].clone()];
    seconds.sort();
    assert_eq!(seconds, pairs(&[("B", 2), ("C", 2)]));
    for entry in &top[3..] {
        assert_eq!(entry.1, 1);
        assert!(["D", "E", "F"].contains(&entry.0.as_str()));
    }
    assert_eq!(top, pairs(&[("A", 3), ("B", 2), ("C", 2), ("D", 1), ("E", 1)]));
}

#[test]
fn ranking_does_not_depend_on_the_order_of_sightings() {
    let one = table_of(&[("F", 1), ("C", 2), ("E", 1), ("A", 3), ("D", 1), ("B", 2)]);
    let two = table_of(&[("b", 2), ("d", 1), ("a", 3), ("e", 1), ("c", 2), ("f", 1)]);
    let keys = |t: &ErrorTable| -> Vec<(Vec<char>, usize)> {
        ranking(t).iter().map(|e| (e.key().clone(), e.count())).collect()
    };
    assert_eq!(keys(&one), keys(&two));
    assert_eq!(
        listed(&one, 6),
        pairs(&[("A", 3), ("B", 2), ("C", 2), ("D", 1), ("E", 1), ("F", 1)])
    );
}

#[test]
fn ties_are_broken_by_the_key() {
    let table = table_of(&[("zeta", 2), ("Alpha", 2), ("alp", 2), ("beta", 2), ("", 0)]);
    assert_eq!(
        listed(&table, 10),
        pairs(&[("alp", 2), ("Alpha", 2), ("beta", 2), ("zeta", 2)])
    );
}

#[test]
fn limit_cuts_the_ranking() {
    let table = table_of(&[("A", 3), ("B", 2), ("C", 1)]);
    assert_eq!(listed(&table, 0), pairs(&[]));
    assert_eq!(listed(&table, 1), pairs(&[("A", 3)]));
    assert_eq!(listed(&table, 3), pairs(&[("A", 3), ("B", 2), ("C", 1)]));
    assert_eq!(listed(&table, 100), pairs(&[("A", 3), ("B", 2), ("C", 1)]));
}

#[test]
fn key_order_is_the_order_of_the_dictionary() {
    let before = |a: &str, b: &str| key_before(&chars_of(a), &chars_of(b));
    assert!(before("", "a"));
    assert!(!before("", ""));
    assert!(!before("a", ""));
    assert!(before("a", "b"));
    assert!(!before("b", "a"));
    assert!(before("ab", "abc"));
    assert!(!before("abc", "ab"));
    assert!(!before("abc", "abc"));
    assert!(before("Z", "a"));
    assert!(before("z", "é"));
    for (a, b) in [("abc", "abd"), ("x", "xy"), ("ä", "ö"), ("", "z"), ("same", "same")] {
        assert_eq!(before(a, b), a < b, "{a} {b}");
        assert_eq!(before(b, a), b < a, "{b} {a}");
    }
}

#[test]
fn more_frequent_entries_rank_first() {
    let table = table_of(&[("a", 1), ("b", 2)]);
    let mut entries = table.entries();
    entries.sort_by_key(|e| e.count());
    assert!(entry_before(&entries[1], &entries[0]));
    assert!(!entry_before(&entries[0], &entries[1]));
    assert!(!entry_before(&entries[0], &entries[0]));
    let copy = entries[0].duplicate();
    assert_eq!(copy.text(), entries[0].text());
    assert_eq!(copy.count(), entries[0].count());
    assert_eq!(copy.key(), entries[0].key());
}
