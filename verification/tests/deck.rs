use leit::deck::Deck;
use leit::item::{ItemData, NUM_BOXES};

/// Makes an item due by backdating its last review.
fn make_due(deck: &mut Deck, key: &str) {
    deck.set_last_reviewed(key, 0);
}

fn keys(names: &[&str]) -> Vec<String> {
    names.iter().map(|s| s.to_string()).collect()
}

#[test]
fn test_new_deck_is_empty() {
    let deck = Deck::new();
    assert!(deck.is_empty());
    assert_eq!(deck.len(), 0);
}

#[test]
fn test_record_creates_item() {
    let mut deck = Deck::new();
    deck.record("item1", true);
    assert_eq!(deck.len(), 1);
    let item = deck.get("item1").unwrap();
    assert_eq!(item.times_correct, 1);
    assert_eq!(item.times_wrong, 0);
    assert_eq!(item.box_level, 1);
}

#[test]
fn test_wrong_answer_demotes_to_box_0() {
    let mut deck = Deck::new();
    deck.record("item1", true);
    make_due(&mut deck, "item1");
    deck.record("item1", true);
    assert_eq!(deck.get("item1").unwrap().box_level, 2);
    deck.record("item1", false);
    assert_eq!(deck.get("item1").unwrap().box_level, 0);
    assert_eq!(deck.get("item1").unwrap().times_wrong, 1);
}

#[test]
fn test_box_level_caps_at_max() {
    let mut deck = Deck::new();
    for _ in 0..20 {
        make_due(&mut deck, "item1");
        deck.record("item1", true);
    }
    assert_eq!(deck.get("item1").unwrap().box_level, NUM_BOXES - 1);
}

#[test]
fn test_correct_answer_not_due_does_not_promote() {
    let mut deck = Deck::new();
    deck.record("item1", true); // box 0 -> 1
    assert_eq!(deck.get("item1").unwrap().box_level, 1);

    // Answer correctly again immediately (not due yet)
    deck.record("item1", true);
    // Should NOT promote: still box 1
    assert_eq!(deck.get("item1").unwrap().box_level, 1);
    // But times_correct should still increment
    assert_eq!(deck.get("item1").unwrap().times_correct, 2);
}

#[test]
fn test_next_item_prefers_unseen() {
    let mut deck = Deck::new();
    // Record item1 as correct (promotes to box 1, not due for 60s)
    deck.record("item1", true);

    let candidates = vec!["item1".to_string(), "item2".to_string()];
    let next = deck.next_item(&candidates).unwrap();
    // item1 at box 1 is not due yet, item2 is unseen
    assert_eq!(next, "item2");
}

#[test]
fn test_next_item_prefers_due_over_unseen() {
    let mut deck = Deck::new();
    // Record item1 as wrong (box 0), then backdate so it's due
    deck.record("item1", false);
    assert!(deck.set_last_reviewed("item1", 0));
    // Record item3 so item1 is no longer the last key
    deck.record("item3", true);

    let candidates = vec!["item1".to_string(), "item2".to_string()];
    let next = deck.next_item(&candidates).unwrap();
    // item1 is due (box 0, backdated), item2 is unseen
    assert_eq!(next, "item1");
}

#[test]
fn test_next_item_skips_last_asked() {
    let mut deck = Deck::new();
    deck.record("item1", false); // item1 is last key, box 0

    let candidates = vec!["item1".to_string(), "item2".to_string()];
    let next = deck.next_item(&candidates).unwrap();
    // item1 is skipped because it was just asked; item2 is unseen
    assert_eq!(next, "item2");
}

#[test]
fn test_next_item_empty_candidates() {
    let deck = Deck::new();
    assert!(deck.next_item(&[]).is_none());
}

#[test]
fn test_due_items_includes_unseen() {
    let deck = Deck::new();
    let candidates = vec!["a".to_string(), "b".to_string()];
    let due = deck.due_items(&candidates);
    assert_eq!(due.len(), 2);
}

#[test]
fn test_next_due_in_returns_none_when_unseen() {
    let deck = Deck::new();
    let candidates = vec!["a".to_string(), "b".to_string()];
    assert!(deck.next_due_in(&candidates).is_none());
}

#[test]
fn test_next_due_in_returns_none_when_due() {
    let mut deck = Deck::new();
    deck.record("a", true);
    make_due(&mut deck, "a");
    let candidates = vec!["a".to_string()];
    assert!(deck.next_due_in(&candidates).is_none());
}

#[test]
fn test_next_due_in_returns_some_when_all_seen_not_due() {
    let mut deck = Deck::new();
    deck.record("a", true); // box 1, interval 60s
    let candidates = vec!["a".to_string()];
    let wait = deck.next_due_in(&candidates);
    assert!(wait.is_some());
    // Should be roughly 60 seconds (box 1 interval)
    assert!(wait.unwrap() <= 60);
    assert!(wait.unwrap() > 0);
}

#[test]
fn test_next_due_in_returns_minimum_across_items() {
    let mut deck = Deck::new();
    deck.record("a", true); // box 1, interval 60s
    make_due(&mut deck, "a");
    deck.record("a", true); // box 2, interval 300s
    deck.record("b", true); // box 1, interval 60s
    let candidates = vec!["a".to_string(), "b".to_string()];
    let wait = deck.next_due_in(&candidates);
    assert!(wait.is_some());
    // b has shorter interval (60s) than a (300s)
    assert!(wait.unwrap() <= 60);
}

#[test]
fn test_next_due_in_empty_candidates() {
    let deck = Deck::new();
    // No candidates means no items to wait for
    assert!(deck.next_due_in(&[]).is_none());
}

#[test]
fn test_serde_roundtrip() {
    let mut deck = Deck::new();
    deck.record("x", true);
    deck.record("y", false);

    // Write the tracked items out as JSON and read them back.
    let mut items = serde_json::Map::new();
    for (key, item) in deck.to_entries() {
        let mut fields = serde_json::Map::new();
        fields.insert("box_level".to_string(), serde_json::Value::from(item.box_level));
        fields.insert("last_reviewed".to_string(), serde_json::Value::from(item.last_reviewed));
        fields.insert("times_correct".to_string(), serde_json::Value::from(item.times_correct));
        fields.insert("times_wrong".to_string(), serde_json::Value::from(item.times_wrong));
        items.insert(key, serde_json::Value::Object(fields));
    }
    let mut root = serde_json::Map::new();
    root.insert("items".to_string(), serde_json::Value::Object(items));
    let json = serde_json::to_string(&serde_json::Value::Object(root)).unwrap();

    let parsed: serde_json::Value = serde_json::from_str(&json).unwrap();
    let mut entries = Vec::new();
    for (key, fields) in parsed["items"].as_object().unwrap() {
        entries.push((
            key.clone(),
            ItemData {
                box_level: fields["box_level"].as_u64().unwrap() as u8,
                last_reviewed: fields["last_reviewed"].as_u64().unwrap(),
                times_correct: fields["times_correct"].as_u64().unwrap() as u32,
                times_wrong: fields["times_wrong"].as_u64().unwrap() as u32,
            },
        ));
    }
    let restored = Deck::from_entries(entries);
    assert_eq!(restored.len(), 2);
    assert_eq!(restored.get("x").unwrap().box_level, 1);
    assert_eq!(restored.get("y").unwrap().box_level, 0);
}

// --- further cases, at fixed times ---

#[test]
fn record_at_promotes_only_when_due() {
    let mut deck = Deck::new();
    deck.record_at("k", true, 1000); // fresh item is due: box 1, reviewed at 1000
    let item = deck.get("k").unwrap();
    assert_eq!((item.box_level, item.last_reviewed, item.times_correct), (1, 1000, 1));
    deck.record_at("k", true, 1059); // 59 s later: not due (box 1 waits 60 s)
    let item = deck.get("k").unwrap();
    assert_eq!((item.box_level, item.last_reviewed, item.times_correct), (1, 1000, 2));
    deck.record_at("k", true, 1060); // due now
    let item = deck.get("k").unwrap();
    assert_eq!((item.box_level, item.last_reviewed, item.times_correct), (2, 1060, 3));
    deck.record_at("k", false, 1061);
    let item = deck.get("k").unwrap();
    assert_eq!((item.box_level, item.last_reviewed, item.times_wrong), (0, 1061, 1));
    assert_eq!(deck.len(), 1);
}

#[test]
fn record_at_early_fresh_item_is_not_promoted() {
    let mut deck = Deck::new();
    deck.record_at("k", true, 19); // box 0 needs 20 s since time 0
    let item = deck.get("k").unwrap();
    assert_eq!((item.box_level, item.last_reviewed, item.times_correct), (0, 0, 1));
}

#[test]
fn record_at_counts_new_keys_once() {
    let mut deck = Deck::new();
    deck.record_at("a", true, 100);
    deck.record_at("b", false, 100);
    deck.record_at("a", false, 200);
    assert_eq!(deck.len(), 2);
    assert!(!deck.is_empty());
    assert!(deck.get("c").is_none());
}

#[test]
fn set_last_reviewed_on_unknown_key_changes_nothing() {
    let mut deck = Deck::new();
    assert!(!deck.set_last_reviewed("nope", 5));
    assert!(deck.is_empty());
}

#[test]
fn due_items_at_keeps_order_and_duplicates() {
    let mut deck = Deck::new();
    deck.record_at("seen", true, 1000); // box 1, due from 1060
    let candidates = keys(&["new", "seen", "new"]);
    assert_eq!(deck.due_items_at(&candidates, 1059), vec!["new", "new"]);
    assert_eq!(deck.due_items_at(&candidates, 1060), vec!["new", "seen", "new"]);
}

#[test]
fn box_counts_per_level() {
    let mut deck = Deck::new();
    deck.record_at("a", true, 1000); // box 1
    deck.record_at("b", false, 1000); // box 0
    deck.record_at("c", true, 1000); // box 1
    let counts = deck.box_counts(&keys(&["a", "b", "c", "d", "a"]));
    assert_eq!(counts, [1, 3, 0, 0, 0, 0, 0, 0, 0]);
    assert_eq!(deck.unseen_count(&keys(&["a", "b", "c", "d", "a"])), 1);
}

#[test]
fn box_due_counts_at_counts_only_due_items() {
    let mut deck = Deck::new();
    deck.record_at("a", true, 1000); // box 1, due from 1060
    deck.record_at("b", false, 1000); // box 0, due from 1020
    let candidates = keys(&["a", "b", "z"]);
    assert_eq!(deck.box_due_counts_at(&candidates, 1030), [1, 0, 0, 0, 0, 0, 0, 0, 0]);
    assert_eq!(deck.box_due_counts_at(&candidates, 1060), [1, 1, 0, 0, 0, 0, 0, 0, 0]);
    assert_eq!(deck.box_due_counts(&candidates).iter().sum::<u32>(), 2);
}

#[test]
fn summary_at_splits_candidates() {
    let mut deck = Deck::new();
    deck.record_at("weak", false, 1000); // box 0, due from 1020
    deck.record_at("mid", true, 0); // box 0 -> not due at 0: stays box 0
    deck.set_last_reviewed("mid", 0);
    let s = deck.summary_at(&keys(&["weak", "mid", "new"]), 1010);
    assert_eq!((s.unasked, s.weak, s.learning, s.mastered, s.due), (1, 2, 0, 0, 2));
    let s = deck.summary_at(&keys(&["weak", "mid", "new"]), 1020);
    assert_eq!(s.due, 3);
}

#[test]
fn summary_at_learning_and_mastered() {
    let mut entries = Vec::new();
    for (key, level) in [("l", 5u8), ("m", 8u8), ("w", 3u8)] {
        entries.push((
            key.to_string(),
            ItemData { box_level: level, last_reviewed: 0, times_correct: 0, times_wrong: 0 },
        ));
    }
    let deck = Deck::from_entries(entries);
    let s = deck.summary_at(&keys(&["l", "m", "w"]), 0);
    assert_eq!((s.unasked, s.weak, s.learning, s.mastered, s.due), (0, 1, 1, 1, 0));
}

#[test]
fn next_due_in_at_exact_wait() {
    let mut deck = Deck::new();
    deck.record_at("a", true, 1000); // box 1, due at 1060
    deck.record_at("b", false, 1010); // box 0, due at 1030
    assert_eq!(deck.next_due_in_at(&keys(&["a", "b"]), 1015), Some(15));
    assert_eq!(deck.next_due_in_at(&keys(&["a"]), 1015), Some(45));
    assert_eq!(deck.next_due_in_at(&keys(&["a", "b"]), 1030), None);
    assert_eq!(deck.next_due_in_at(&keys(&["a", "new"]), 1015), None);
}

#[test]
fn review_pool_at_prefers_lowest_due_box() {
    let mut deck = Deck::new();
    deck.record_at("b1", true, 0); // fresh item not due at 0: stays box 0
    deck.record_at("b1", true, 100); // box 1 at 100
    deck.record_at("b0", false, 100); // box 0 at 100
    deck.record_at("other", false, 100);
    // at 1000 both are due; the lowest due box is 0
    let candidates = keys(&["b1", "b0", "new"]);
    assert_eq!(deck.review_pool_at(&candidates, 1000), vec![1]);
    // at 110 nothing is due; unseen keys come next
    assert_eq!(deck.review_pool_at(&candidates, 110), vec![2]);
    // without unseen keys, the lowest box among waiting items
    assert_eq!(deck.review_pool_at(&keys(&["b1", "b0"]), 110), vec![1]);
}

#[test]
fn next_item_returns_last_key_when_it_is_the_only_candidate() {
    let mut deck = Deck::new();
    deck.record("only", false);
    let candidates = keys(&["only"]);
    assert_eq!(deck.next_item(&candidates), Some("only"));
}

#[test]
fn entries_roundtrip_restores_items() {
    let mut deck = Deck::new();
    deck.record_at("p", true, 500);
    deck.record_at("q", false, 600);
    let restored = Deck::from_entries(deck.to_entries());
    assert_eq!(restored.len(), 2);
    let p = restored.get("p").unwrap();
    assert_eq!((p.box_level, p.last_reviewed, p.times_correct, p.times_wrong), (1, 500, 1, 0));
    let q = restored.get("q").unwrap();
    assert_eq!((q.box_level, q.last_reviewed, q.times_correct, q.times_wrong), (0, 600, 0, 1));
}

#[test]
fn from_entries_later_entry_wins() {
    let item = |level: u8| ItemData { box_level: level, last_reviewed: 0, times_correct: 0, times_wrong: 0 };
    let deck = Deck::from_entries(vec![("k".to_string(), item(2)), ("k".to_string(), item(4))]);
    assert_eq!(deck.len(), 1);
    assert_eq!(deck.get("k").unwrap().box_level, 4);
}

#[test]
fn item_intervals_per_box() {
    let expected = [20u64, 60, 300, 1_800, 7_200, 21_600, 86_400, 259_200, 604_800];
    for (level, secs) in expected.iter().enumerate() {
        let item = ItemData { box_level: level as u8, last_reviewed: 10, times_correct: 0, times_wrong: 0 };
        assert_eq!(item.interval(), *secs);
        assert!(!item.is_due(10 + secs - 1));
        assert!(item.is_due(10 + secs));
        assert!(!item.is_due(0));
    }
}

#[test]
fn box_counts_and_unseen_cover_all_candidates() {
    let mut deck = Deck::new();
    deck.record_at("a", true, 1000);
    deck.record_at("b", false, 1000);
    let candidates = keys(&["a", "b", "x", "y", "b"]);
    let counts = deck.box_counts(&candidates);
    let unseen = deck.unseen_count(&candidates);
    assert_eq!(counts.iter().sum::<u32>() + unseen, candidates.len() as u32);
    let due = deck.box_due_counts_at(&candidates, 5000);
    for level in 0..(NUM_BOXES as usize) {
        assert!(due[level] <= counts[level]);
    }
    let s = deck.summary_at(&candidates, 1000);
    assert_eq!(s.unasked + s.weak + s.learning + s.mastered, candidates.len() as u32);
    assert_eq!(s.due as usize, deck.due_items_at(&candidates, 1000).len());
}

#[test]
fn box_labels_name_each_box() {
    assert_eq!(leit::item::BOX_LABELS.len(), NUM_BOXES as usize);
    assert_eq!(leit::item::BOX_LABELS[0], "20s");
    assert_eq!(leit::item::BOX_LABELS[8], "1w");
}

#[test]
fn summary_tiers_are_sums_of_box_counts() {
    let mut deck = Deck::new();
    let cands = keys(&["a", "b", "c", "d", "e"]);
    deck.record_at("a", true, 1000); // box 1
    deck.record_at("b", false, 1000); // box 0
    for t in [1000u64, 2000, 3000, 10_000, 20_000, 50_000, 200_000] {
        deck.record_at("c", true, t); // climbs one box each time it is due
    }
    let counts = deck.box_counts(&cands);
    let s = deck.summary_at(&cands, 200_000);
    assert_eq!(s.weak, counts[0] + counts[1] + counts[2] + counts[3]);
    assert_eq!(s.learning, counts[4] + counts[5] + counts[6]);
    assert_eq!(s.mastered, counts[7] + counts[8]);
    assert_eq!(s.unasked, deck.unseen_count(&cands));
    assert_eq!(s.unasked, 2);
    assert_eq!(s.weak + s.learning + s.mastered, 3);
}

#[test]
fn due_counts_and_unseen_add_up_to_due_items() {
    let mut deck = Deck::new();
    let cands = keys(&["a", "b", "c", "d"]);
    deck.record_at("a", true, 1000); // box 1, due at 1060
    deck.record_at("b", false, 1000); // box 0, due at 1020
    deck.record_at("c", true, 1000);
    deck.record_at("c", true, 1060); // box 2, due at 1360
    for now in [1000u64, 1030, 1070, 1400] {
        let due = deck.box_due_counts_at(&cands, now);
        let total: u32 = due.iter().sum();
        assert_eq!(
            total + deck.unseen_count(&cands),
            deck.due_items_at(&cands, now).len() as u32
        );
    }
    assert_eq!(deck.due_items_at(&cands, 1030), vec!["b", "d"]);
}

#[test]
fn len_counts_distinct_recorded_keys() {
    let mut deck = Deck::new();
    assert!(deck.is_empty());
    deck.record_at("x", true, 10);
    deck.record_at("y", false, 20);
    deck.record_at("x", false, 30);
    deck.record_at("z", true, 40);
    deck.record_at("y", true, 50);
    assert_eq!(deck.len(), 3);
    assert!(!deck.is_empty());
}
