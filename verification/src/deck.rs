//! A generic spaced repetition deck: Leitner boxes over string keys.
//!
//! The deck tracks items by key and knows nothing about the domain; the
//! caller maps domain objects to and from keys.

use vstd::prelude::*;

use crate::clock::now_secs;
use crate::item::{after_answer, box_interval, ItemData, NUM_BOXES};
use crate::random::{gen_index, thread_rng};
use crate::schedule::{
    all_pending,
    box_range_pred,
    candidate_keys,
    count_keys,
    due_counts_are,
    due_in_box_pred,
    due_or_unseen_pred,
    due_times_fit,
    entries_map,
    entry_keys,
    in_box_pred,
    item_or_fresh,
    lemma_count_prefix,
    lemma_due_counts_within_counts,
    lemma_filter_take,
    lemma_review_pool_in_range,
    lemma_review_pool_nonempty,
    lemma_take_all,
    min_wait,
    next_due_wait,
    pending,
    pool_pred,
    position_views,
    positions,
    review_pool,
    selected_tier,
    str_views,
    summary_counts,
    tier,
    tier_pool,
    unseen_pred,
};
use crate::text::opt_string_view;

verus! {

/// Summary of deck state relative to a candidate pool.
#[derive(Debug, Clone, Default)]
pub struct DeckSummary {
    pub unasked: u32,
    pub weak: u32,
    pub learning: u32,
    pub mastered: u32,
    pub due: u32,
}

impl View for DeckSummary {
    type V = (nat, nat, nat, nat, nat);

    open spec fn view(&self) -> Self::V {
        (
            self.unasked as nat,
            self.weak as nat,
            self.learning as nat,
            self.mastered as nat,
            self.due as nat,
        )
    }
}

/// A spaced repetition deck.
#[derive(Debug, Clone)]
pub struct Deck {
    entries: Vec<(String, ItemData)>,
    last_key: Option<String>,
}

impl Deck {
    /// Keys occur once each, and every item lies in one of the boxes.
    pub closed spec fn wf(self) -> bool {
        &&& entry_keys(self.entries@).no_duplicates()
        &&& forall|i: int|
            0 <= i < self.entries@.len() ==> (#[trigger] self.entries@[i]).1.box_level
                < NUM_BOXES
    }

    /// The tracked items, by key.
    pub closed spec fn items(self) -> Map<Seq<char>, ItemData> {
        entries_map(self.entries@)
    }

    /// The key answered last, if any.
    pub closed spec fn last_key(self) -> Option<Seq<char>> {
        opt_string_view(self.last_key)
    }

    proof fn lemma_entries_map(e: Seq<(String, ItemData)>)
        requires
            entry_keys(e).no_duplicates(),
        ensures
            entries_map(e).dom() == entry_keys(e).to_set(),
            forall|i: int|
                0 <= i < e.len() ==> entries_map(e)[#[trigger] e[i].0@] == e[i].1,
        decreases e.len(),
    {
        if e.len() > 0 {
            let d = e.drop_last();
            assert(entry_keys(d) =~= entry_keys(e).drop_last());
            Self::lemma_entries_map(d);
            assert(entries_map(e).dom() =~= entry_keys(e).to_set()) by {
                assert forall|k: Seq<char>| entry_keys(e).to_set().contains(k) implies entries_map(
                    e,
                ).dom().contains(k) by {
                    let i = choose|i: int| 0 <= i < entry_keys(e).len() && entry_keys(e)[i] == k;
                    if i < e.len() - 1 {
                        assert(entry_keys(d)[i] == k);
                    }
                }
                assert forall|k: Seq<char>| entries_map(e).dom().contains(k) implies entry_keys(
                    e,
                ).to_set().contains(k) by {
                    if k == e.last().0@ {
                        assert(entry_keys(e)[e.len() - 1] == k);
                    } else {
                        let i = choose|i: int| 0 <= i < entry_keys(d).len() && entry_keys(d)[i] == k;
                        assert(entry_keys(e)[i] == k);
                    }
                }
            }
            assert forall|i: int| 0 <= i < e.len() implies entries_map(e)[#[trigger] e[i].0@]
                == e[i].1 by {
                if i < e.len() - 1 {
                    assert(entry_keys(e)[i] == e[i].0@);
                    assert(entry_keys(e)[e.len() - 1] == e.last().0@);
                    assert(d[i] == e[i]);
                }
            }
        }
    }

    /// The items of a well-formed deck are its entries, one key each.
    proof fn lemma_items(self)
        requires
            self.wf(),
        ensures
            self.items().dom() == entry_keys(self.entries@).to_set(),
            self.items().len() == self.entries@.len(),
            forall|i: int|
                0 <= i < self.entries@.len() ==> self.items()[#[trigger] self.entries@[i].0@]
                    == self.entries@[i].1,
            forall|k: Seq<char>|
                #[trigger] self.items().contains_key(k) ==> self.items()[k].box_level < NUM_BOXES,
    {
        Self::lemma_entries_map(self.entries@);
        entry_keys(self.entries@).unique_seq_to_set();
        assert forall|k: Seq<char>| #[trigger] self.items().contains_key(k) implies self.items()[k].box_level
            < NUM_BOXES by {
            let i = choose|i: int|
                0 <= i < entry_keys(self.entries@).len() && entry_keys(self.entries@)[i] == k;
            assert(self.entries@[i].0@ == k);
        }
    }

    /// A deck tracks finitely many items, each in one of the boxes.
    pub proof fn lemma_levels_in_range(self)
        requires
            self.wf(),
        ensures
            self.items().dom().finite(),
            forall|k: Seq<char>|
                #[trigger] self.items().contains_key(k) ==> self.items()[k].box_level < NUM_BOXES,
    {
        self.lemma_items();
    }

    /// An empty deck.
    pub fn new() -> (r: Deck)
        ensures
            r.wf(),
            r.items() == Map::<Seq<char>, ItemData>::empty(),
            r.last_key() is None,
    {
        Deck { entries: Vec::new(), last_key: None }
    }

    /// The position of a key among the entries.
    fn find(&self, key: &String) -> (r: Option<usize>)
        requires
            self.wf(),
        ensures
            match r {
                Some(i) => i < self.entries@.len() && self.entries@[i as int].0@ == key@
                    && self.items().contains_key(key@) && self.items()[key@]
                    == self.entries@[i as int].1,
                None => !self.items().contains_key(key@),
            },
    {
        let n = self.entries.len();
        let mut i: usize = 0;
        while i < n
            invariant
                self.wf(),
                n == self.entries@.len(),
                i <= n,
                forall|j: int| 0 <= j < i ==> self.entries@[j].0@ != key@,
            decreases n - i,
        {
            if self.entries[i].0 == *key {
                proof {
                    self.lemma_items();
                    assert(entry_keys(self.entries@)[i as int] == key@);
                }
                return Some(i);
            }
            i = i + 1;
        }
        proof {
            self.lemma_items();
            if self.items().contains_key(key@) {
                let j = choose|j: int|
                    0 <= j < entry_keys(self.entries@).len() && entry_keys(self.entries@)[j]
                        == key@;
                assert(self.entries@[j].0@ == key@);
            }
        }
        None
    }

    /// Replacing the item of an entry updates the item of its key.
    proof fn lemma_set_entry(e: Seq<(String, ItemData)>, i: int, x: (String, ItemData))
        requires
            entry_keys(e).no_duplicates(),
            0 <= i < e.len(),
            x.0@ == e[i].0@,
        ensures
            entry_keys(e.update(i, x)) == entry_keys(e),
            entries_map(e.update(i, x)) == entries_map(e).insert(x.0@, x.1),
    {
        let f = e.update(i, x);
        assert(entry_keys(f) =~= entry_keys(e));
        Self::lemma_entries_map(e);
        Self::lemma_entries_map(f);
        assert(entry_keys(e)[i] == x.0@);
        assert(entry_keys(e).to_set().contains(x.0@));
        assert(entries_map(f).dom() =~= entries_map(e).insert(x.0@, x.1).dom());
        assert forall|k: Seq<char>| #[trigger] entries_map(f).contains_key(k) implies entries_map(
            f,
        )[k] == entries_map(e).insert(x.0@, x.1)[k] by {
            let j = choose|j: int| 0 <= j < entry_keys(f).len() && entry_keys(f)[j] == k;
            assert(f[j].0@ == k);
            if j == i {
                assert(entries_map(f)[f[j].0@] == f[j].1);
            } else {
                assert(entry_keys(e)[j] != entry_keys(e)[i]);
                assert(entries_map(f)[f[j].0@] == f[j].1);
                assert(entries_map(e)[e[j].0@] == e[j].1);
            }
        }
        assert(entries_map(f) =~= entries_map(e).insert(x.0@, x.1));
    }

    /// Adding an entry with a new key adds its item.
    proof fn lemma_push_entry(e: Seq<(String, ItemData)>, x: (String, ItemData))
        requires
            entry_keys(e).no_duplicates(),
            !entry_keys(e).contains(x.0@),
        ensures
            entry_keys(e.push(x)).no_duplicates(),
            entries_map(e.push(x)) == entries_map(e).insert(x.0@, x.1),
    {
        let f = e.push(x);
        assert(entry_keys(f) =~= entry_keys(e).push(x.0@));
        assert(f.drop_last() =~= e);
        assert forall|a: int, b: int|
            0 <= a < entry_keys(f).len() && 0 <= b < entry_keys(f).len() && a != b implies entry_keys(
            f,
        )[a] != entry_keys(f)[b] by {
            if a == e.len() {
                assert(entry_keys(e)[b] == entry_keys(f)[b]);
            } else if b == e.len() {
                assert(entry_keys(e)[a] == entry_keys(f)[a]);
            }
        }
    }

    /// Looks up the tracking data of a key.
    pub fn get(&self, key: &str) -> (r: Option<&ItemData>)
        requires
            self.wf(),
        ensures
            match r {
                Some(d) => self.items().contains_key(key@) && *d == self.items()[key@],
                None => !self.items().contains_key(key@),
            },
    {
        let k = key.to_string();
        match self.find(&k) {
            Some(i) => Some(&self.entries[i].1),
            None => None,
        }
    }

    /// The number of items being tracked.
    pub fn len(&self) -> (r: usize)
        requires
            self.wf(),
        ensures
            r == self.items().len(),
    {
        proof {
            self.lemma_items();
        }
        self.entries.len()
    }

    /// Whether the deck tracks no item.
    pub fn is_empty(&self) -> (r: bool)
        requires
            self.wf(),
        ensures
            r == (self.items().len() == 0),
    {
        proof {
            self.lemma_items();
        }
        self.entries.len() == 0
    }

    /// Records an answer for a key at Unix time `now`. A correct answer
    /// promotes the item only if it is due (so that repeated encounters do
    /// not advance it quickly); a wrong answer always sends it back to box
    /// 0. A key not seen before starts as a fresh item.
    pub fn record_at(&mut self, key: &str, correct: bool, now: u64)
        requires
            old(self).wf(),
            correct ==> item_or_fresh(old(self).items(), key@).times_correct < u32::MAX,
            !correct ==> item_or_fresh(old(self).items(), key@).times_wrong < u32::MAX,
        ensures
            final(self).wf(),
            final(self).items() == old(self).items().insert(
                key@,
                after_answer(item_or_fresh(old(self).items(), key@), correct, now),
            ),
            final(self).last_key() == Some(key@),
    {
        let k = key.to_string();
        self.last_key = Some(key.to_string());
        let mut item = match self.lookup(&k) {
            Some(d) => ItemData {
                box_level: d.box_level,
                last_reviewed: d.last_reviewed,
                times_correct: d.times_correct,
                times_wrong: d.times_wrong,
            },
            None => ItemData::default(),
        };
        if correct {
            if item.is_due(now) {
                item.promote(now);
            } else {
                item.times_correct = item.times_correct + 1;
            }
        } else {
            item.demote(now);
        }
        self.upsert(k, item);
    }

    /// Records an answer for a key at the current time of the machine's
    /// clock; see `record_at`.
    pub fn record(&mut self, key: &str, correct: bool)
        requires
            old(self).wf(),
            correct ==> item_or_fresh(old(self).items(), key@).times_correct < u32::MAX,
            !correct ==> item_or_fresh(old(self).items(), key@).times_wrong < u32::MAX,
        ensures
            final(self).wf(),
            exists|now: u64|
                final(self).items() == old(self).items().insert(
                    key@,
                    #[trigger] after_answer(item_or_fresh(old(self).items(), key@), correct, now),
                ),
            final(self).last_key() == Some(key@),
    {
        let now = now_secs();
        self.record_at(key, correct, now);
    }

    /// Sets the time of the last review of a tracked key; returns whether
    /// the deck tracks the key (and leaves the deck as it was when not).
    pub fn set_last_reviewed(&mut self, key: &str, when: u64) -> (r: bool)
        requires
            old(self).wf(),
        ensures
            final(self).wf(),
            r == old(self).items().contains_key(key@),
            r ==> final(self).items() == old(self).items().insert(
                key@,
                ItemData { last_reviewed: when, ..old(self).items()[key@] },
            ),
            !r ==> final(self).items() == old(self).items(),
            final(self).last_key() == old(self).last_key(),
    {
        let k = key.to_string();
        let item = match self.lookup(&k) {
            Some(d) => ItemData {
                box_level: d.box_level,
                last_reviewed: when,
                times_correct: d.times_correct,
                times_wrong: d.times_wrong,
            },
            None => return false,
        };
        self.upsert(k, item);
        true
    }

    /// The item of a candidate key, if the deck tracks it.
    fn lookup(&self, key: &String) -> (r: Option<&ItemData>)
        requires
            self.wf(),
        ensures
            match r {
                Some(d) => self.items().contains_key(key@) && *d == self.items()[key@]
                    && d.box_level < NUM_BOXES,
                None => !self.items().contains_key(key@),
            },
    {
        match self.find(key) {
            Some(i) => Some(&self.entries[i].1),
            None => None,
        }
    }

    /// The candidate keys that are due for review at `now`, in order; keys
    /// the deck has not seen yet are always due.
    pub fn due_items_at<'a>(&self, candidates: &'a [String], now: u64) -> (r: Vec<&'a str>)
        requires
            self.wf(),
        ensures
            str_views(r@) == candidate_keys(candidates@).filter(
                due_or_unseen_pred(self.items(), now),
            ),
    {
        let ghost ks = candidate_keys(candidates@);
        let ghost p = due_or_unseen_pred(self.items(), now);
        let mut out: Vec<&'a str> = Vec::new();
        let n = candidates.len();
        let mut i: usize = 0;
        while i < n
            invariant
                self.wf(),
                n == candidates@.len(),
                i <= n,
                ks == candidate_keys(candidates@),
                p == due_or_unseen_pred(self.items(), now),
                str_views(out@) == ks.take(i as int).filter(p),
            decreases n - i,
        {
            let key = &candidates[i];
            let keep = match self.lookup(key) {
                Some(d) => d.is_due(now),
                None => true,
            };
            proof {
                lemma_filter_take(ks, p, i as int);
                assert(ks[i as int] == key@);
            }
            let ghost before = out@;
            if keep {
                out.push(key.as_str());
                assert(str_views(out@) =~= str_views(before).push(key@));
            }
            i = i + 1;
        }
        proof {
            lemma_take_all(ks);
        }
        out
    }

    /// The candidate keys that are due for review now, by the machine's
    /// clock; see `due_items_at`.
    pub fn due_items<'a>(&self, candidates: &'a [String]) -> (r: Vec<&'a str>)
        requires
            self.wf(),
        ensures
            exists|now: u64|
                str_views(r@) == candidate_keys(candidates@).filter(
                    #[trigger] due_or_unseen_pred(self.items(), now),
                ),
    {
        let now = now_secs();
        self.due_items_at(candidates, now)
    }

    /// The number of candidates at each box level: index = box level, value
    /// = count. Keys the deck has not seen are not counted; a key given
    /// twice counts twice.
    pub fn box_counts(&self, candidates: &[String]) -> (r: [u32; 9])
        requires
            self.wf(),
            forall|b: int|
                0 <= b < NUM_BOXES ==> count_keys(
                    candidate_keys(candidates@),
                    #[trigger] in_box_pred(self.items(), b),
                ) <= u32::MAX,
        ensures
            forall|b: int|
                0 <= b < NUM_BOXES ==> r@[b] == count_keys(
                    candidate_keys(candidates@),
                    #[trigger] in_box_pred(self.items(), b),
                ),
    {
        let ghost ks = candidate_keys(candidates@);
        let ghost m = self.items();
        let mut counts = [0u32; 9];
        let n = candidates.len();
        let mut i: usize = 0;
        while i < n
            invariant
                self.wf(),
                n == candidates@.len(),
                forall|b: int|
                    0 <= b < NUM_BOXES ==> count_keys(ks, #[trigger] in_box_pred(m, b)) <= u32::MAX,
                i <= n,
                ks == candidate_keys(candidates@),
                m == self.items(),
                forall|b: int|
                    0 <= b < NUM_BOXES ==> counts@[b] == count_keys(
                        ks.take(i as int),
                        #[trigger] in_box_pred(m, b),
                    ),
            decreases n - i,
        {
            let key = &candidates[i];
            proof {
                assert(ks[i as int] == key@);
            }
            if let Some(d) = self.lookup(key) {
                let b = d.box_level as usize;
                proof {
                    lemma_filter_take(ks, in_box_pred(m, b as int), i as int);
                    lemma_count_prefix(ks, in_box_pred(m, b as int), i + 1);
                }
                counts[b] = counts[b] + 1;
            }
            proof {
                assert forall|b: int| 0 <= b < NUM_BOXES implies counts@[b] == count_keys(
                    ks.take(i + 1),
                    #[trigger] in_box_pred(m, b),
                ) by {
                    lemma_filter_take(ks, in_box_pred(m, b), i as int);
                }
            }
            i = i + 1;
        }
        proof {
            lemma_take_all(ks);
        }
        counts
    }

    /// The number of candidates at each box level that are due for review
    /// at `now`. Keys the deck has not seen are not counted.
    pub fn box_due_counts_at(&self, candidates: &[String], now: u64) -> (r: [u32; 9])
        requires
            self.wf(),
            forall|b: int|
                0 <= b < NUM_BOXES ==> count_keys(
                    candidate_keys(candidates@),
                    #[trigger] due_in_box_pred(self.items(), b, now),
                ) <= u32::MAX,
        ensures
            forall|b: int|
                0 <= b < NUM_BOXES ==> r@[b] == count_keys(
                    candidate_keys(candidates@),
                    #[trigger] due_in_box_pred(self.items(), b, now),
                ),
    {
        let ghost ks = candidate_keys(candidates@);
        let ghost m = self.items();
        let mut counts = [0u32; 9];
        let n = candidates.len();
        let mut i: usize = 0;
        while i < n
            invariant
                self.wf(),
                n == candidates@.len(),
                forall|b: int|
                    0 <= b < NUM_BOXES ==> count_keys(ks, #[trigger] due_in_box_pred(m, b, now)) <= u32::MAX,
                i <= n,
                ks == candidate_keys(candidates@),
                m == self.items(),
                forall|b: int|
                    0 <= b < NUM_BOXES ==> counts@[b] == count_keys(
                        ks.take(i as int),
                        #[trigger] due_in_box_pred(m, b, now),
                    ),
            decreases n - i,
        {
            let key = &candidates[i];
            proof {
                assert(ks[i as int] == key@);
            }
            if let Some(d) = self.lookup(key) {
                if d.is_due(now) {
                    let b = d.box_level as usize;
                    proof {
                        lemma_filter_take(ks, due_in_box_pred(m, b as int, now), i as int);
                        lemma_count_prefix(ks, due_in_box_pred(m, b as int, now), i + 1);
                    }
                    counts[b] = counts[b] + 1;
                }
            }
            proof {
                assert forall|b: int| 0 <= b < NUM_BOXES implies counts@[b] == count_keys(
                    ks.take(i + 1),
                    #[trigger] due_in_box_pred(m, b, now),
                ) by {
                    lemma_filter_take(ks, due_in_box_pred(m, b, now), i as int);
                }
            }
            i = i + 1;
        }
        proof {
            lemma_take_all(ks);
        }
        counts
    }

    /// The due counts per box level now, by the machine's clock; see
    /// `box_due_counts_at`.
    pub fn box_due_counts(&self, candidates: &[String]) -> (r: [u32; 9])
        requires
            self.wf(),
            forall|b: int|
                0 <= b < NUM_BOXES ==> count_keys(
                    candidate_keys(candidates@),
                    #[trigger] in_box_pred(self.items(), b),
                ) <= u32::MAX,
        ensures
            exists|now: u64| #[trigger] due_counts_are(r@, self.items(), candidate_keys(candidates@), now),
    {
        let now = now_secs();
        assert forall|b: int| 0 <= b < NUM_BOXES implies count_keys(
            candidate_keys(candidates@),
            #[trigger] due_in_box_pred(self.items(), b, now),
        ) <= u32::MAX by {
            lemma_due_counts_within_counts(self.items(), candidate_keys(candidates@), b, now);
            assert(count_keys(candidate_keys(candidates@), in_box_pred(self.items(), b)) <= u32::MAX);
        }
        let r = self.box_due_counts_at(candidates, now);
        assert(due_counts_are(r@, self.items(), candidate_keys(candidates@), now));
        r
    }

    /// The number of candidates the deck has not seen, wrapped to 32 bits.
    pub fn unseen_count(&self, candidates: &[String]) -> (r: u32)
        requires
            self.wf(),
        ensures
            r == count_keys(candidate_keys(candidates@), unseen_pred(self.items())) as u32,
    {
        let ghost ks = candidate_keys(candidates@);
        let ghost p = unseen_pred(self.items());
        let n = candidates.len();
        let mut count: usize = 0;
        let mut i: usize = 0;
        while i < n
            invariant
                self.wf(),
                n == candidates@.len(),
                i <= n,
                ks == candidate_keys(candidates@),
                p == unseen_pred(self.items()),
                count == count_keys(ks.take(i as int), p),
                count <= i,
            decreases n - i,
        {
            let key = &candidates[i];
            proof {
                lemma_filter_take(ks, p, i as int);
                assert(ks[i as int] == key@);
            }
            if self.lookup(key).is_none() {
                count = count + 1;
            }
            i = i + 1;
        }
        proof {
            lemma_take_all(ks);
        }
        count as u32
    }

    /// How the candidates stand at `now`: how many the deck has not seen
    /// (unasked), how many it holds in boxes 0 to 3 (weak), 4 to 6
    /// (learning) and 7 to 8 (mastered), and how many are due (unseen
    /// candidates included).
    pub fn summary_at(&self, candidates: &[String], now: u64) -> (r: DeckSummary)
        requires
            self.wf(),
            summary_counts(self.items(), candidate_keys(candidates@), now).0 <= u32::MAX,
            summary_counts(self.items(), candidate_keys(candidates@), now).1 <= u32::MAX,
            summary_counts(self.items(), candidate_keys(candidates@), now).2 <= u32::MAX,
            summary_counts(self.items(), candidate_keys(candidates@), now).3 <= u32::MAX,
            summary_counts(self.items(), candidate_keys(candidates@), now).4 <= u32::MAX,
        ensures
            r@ == summary_counts(self.items(), candidate_keys(candidates@), now),
    {
        let ghost ks = candidate_keys(candidates@);
        let ghost m = self.items();
        let mut unasked: u32 = 0;
        let mut weak: u32 = 0;
        let mut learning: u32 = 0;
        let mut mastered: u32 = 0;
        let mut due: u32 = 0;
        let n = candidates.len();
        let mut i: usize = 0;
        while i < n
            invariant
                self.wf(),
                n == candidates@.len(),
                summary_counts(m, ks, now).0 <= u32::MAX,
                summary_counts(m, ks, now).1 <= u32::MAX,
                summary_counts(m, ks, now).2 <= u32::MAX,
                summary_counts(m, ks, now).3 <= u32::MAX,
                summary_counts(m, ks, now).4 <= u32::MAX,
                i <= n,
                ks == candidate_keys(candidates@),
                m == self.items(),
                (unasked as nat, weak as nat, learning as nat, mastered as nat, due as nat)
                    == summary_counts(m, ks.take(i as int), now),
            decreases n - i,
        {
            let key = &candidates[i];
            proof {
                assert(ks[i as int] == key@);
                lemma_filter_take(ks, unseen_pred(m), i as int);
                lemma_filter_take(ks, box_range_pred(m, 0, 3), i as int);
                lemma_filter_take(ks, box_range_pred(m, 4, 6), i as int);
                lemma_filter_take(ks, box_range_pred(m, 7, 255), i as int);
                lemma_filter_take(ks, due_or_unseen_pred(m, now), i as int);
                lemma_count_prefix(ks, unseen_pred(m), i + 1);
                lemma_count_prefix(ks, box_range_pred(m, 0, 3), i + 1);
                lemma_count_prefix(ks, box_range_pred(m, 4, 6), i + 1);
                lemma_count_prefix(ks, box_range_pred(m, 7, 255), i + 1);
                lemma_count_prefix(ks, due_or_unseen_pred(m, now), i + 1);
            }
            match self.lookup(key) {
                None => {
                    unasked = unasked + 1;
                    due = due + 1;
                },
                Some(item) => {
                    match item.box_level {
                        0..=3 => weak = weak + 1,
                        4..=6 => learning = learning + 1,
                        _ => mastered = mastered + 1,
                    }
                    if item.is_due(now) {
                        due = due + 1;
                    }
                },
            }
            i = i + 1;
        }
        proof {
            lemma_take_all(ks);
        }
        DeckSummary { unasked, weak, learning, mastered, due }
    }

    /// How the candidates stand now, by the machine's clock; see
    /// `summary_at`. At most `u32::MAX` candidates are taken, so that no
    /// count overflows whatever the time.
    pub fn summary(&self, candidates: &[String]) -> (r: DeckSummary)
        requires
            self.wf(),
            candidates@.len() <= u32::MAX,
        ensures
            exists|now: u64|
                r@ == #[trigger] summary_counts(self.items(), candidate_keys(candidates@), now),
    {
        let now = now_secs();
        proof {
            let ks = candidate_keys(candidates@);
            let m = self.items();
            ks.lemma_filter_len(unseen_pred(m));
            ks.lemma_filter_len(box_range_pred(m, 0, 3));
            ks.lemma_filter_len(box_range_pred(m, 4, 6));
            ks.lemma_filter_len(box_range_pred(m, 7, 255));
            ks.lemma_filter_len(due_or_unseen_pred(m, now));
        }
        self.summary_at(candidates, now)
    }


    /// Seconds until the next candidate becomes due at `now`; `None` when
    /// there are no candidates, or one of them is due or not seen yet.
    pub fn next_due_in_at(&self, candidates: &[String], now: u64) -> (r: Option<u64>)
        requires
            self.wf(),
            due_times_fit(self.items(), candidate_keys(candidates@), now),
        ensures
            match r {
                Some(w) => next_due_wait(self.items(), candidate_keys(candidates@), now) == Some(
                    w as int,
                ),
                None => next_due_wait(self.items(), candidate_keys(candidates@), now) is None,
            },
    {
        let ghost ks = candidate_keys(candidates@);
        let ghost m = self.items();
        let mut earliest: Option<u64> = None;
        let n = candidates.len();
        let mut i: usize = 0;
        while i < n
            invariant
                self.wf(),
                n == candidates@.len(),
                i <= n,
                ks == candidate_keys(candidates@),
                m == self.items(),
                due_times_fit(m, ks, now),
                all_pending(m, ks.take(i as int), now),
                i == 0 ==> earliest is None,
                i > 0 ==> (earliest matches Some(e) && e == min_wait(m, ks.take(i as int), now)),
            decreases n - i,
        {
            let key = &candidates[i];
            proof {
                assert(ks[i as int] == key@);
            }
            let item = match self.lookup(key) {
                None => {
                    assert(!pending(m, ks[i as int], now));
                    return None;
                },
                Some(item) => item,
            };
            if item.is_due(now) {
                assert(!pending(m, ks[i as int], now));
                return None;
            }
            proof {
                assert(all_pending(m, ks.take(i + 1), now)) by {
                    assert forall|j: int| 0 <= j < ks.take(i + 1).len() implies #[trigger] pending(
                        m,
                        ks.take(i + 1)[j],
                        now,
                    ) by {
                        if j < i {
                            assert(ks.take(i + 1)[j] == ks.take(i as int)[j]);
                        }
                    }
                }
                assert(ks.take(i + 1)[i as int] == ks[i as int]);
            }
            let due_time = item.last_reviewed + item.interval();
            let wait = due_time.saturating_sub(now);
            earliest = Some(
                match earliest {
                    Some(e) => e.min(wait),
                    None => wait,
                },
            );
            proof {
                assert(ks.take(i + 1).drop_last() =~= ks.take(i as int));
                assert(ks.take(i + 1).last() == ks[i as int]);
            }
            i = i + 1;
        }
        proof {
            lemma_take_all(ks);
        }
        earliest
    }

    /// Whether the due times that `next_due_in_at` computes fit a `u64`.
    fn due_times_fit_at(&self, candidates: &[String], now: u64) -> (r: bool)
        requires
            self.wf(),
        ensures
            r == due_times_fit(self.items(), candidate_keys(candidates@), now),
    {
        let ghost ks = candidate_keys(candidates@);
        let ghost m = self.items();
        let n = candidates.len();
        let mut i: usize = 0;
        while i < n
            invariant
                self.wf(),
                n == candidates@.len(),
                i <= n,
                ks == candidate_keys(candidates@),
                m == self.items(),
                all_pending(m, ks.take(i as int), now),
                forall|j: int|
                    0 <= j < i ==> m[ks[j]].last_reviewed + box_interval(m[ks[j]].box_level)
                        <= u64::MAX,
            decreases n - i,
        {
            let key = &candidates[i];
            proof {
                assert(ks[i as int] == key@);
            }
            let pend = match self.lookup(key) {
                None => false,
                Some(item) => !item.is_due(now),
            };
            if !pend {
                proof {
                    assert forall|j: int|
                        0 <= j < ks.len() && #[trigger] all_pending(
                            m,
                            ks.take(j + 1),
                            now,
                        ) implies m[ks[j]].last_reviewed + box_interval(m[ks[j]].box_level)
                        <= u64::MAX by {
                        if j >= i {
                            assert(ks.take(j + 1)[i as int] == ks[i as int]);
                            assert(pending(m, ks.take(j + 1)[i as int], now));
                        }
                    }
                }
                return true;
            }
            let item = self.lookup(key).unwrap();
            if item.last_reviewed > u64::MAX - item.interval() {
                proof {
                    assert(all_pending(m, ks.take(i + 1), now)) by {
                        assert forall|j: int| 0 <= j < ks.take(i + 1).len() implies #[trigger] pending(
                            m,
                            ks.take(i + 1)[j],
                            now,
                        ) by {
                            if j < i {
                                assert(ks.take(i + 1)[j] == ks.take(i as int)[j]);
                            }
                        }
                    }
                }
                return false;
            }
            proof {
                assert(all_pending(m, ks.take(i + 1), now)) by {
                    assert forall|j: int| 0 <= j < ks.take(i + 1).len() implies #[trigger] pending(
                        m,
                        ks.take(i + 1)[j],
                        now,
                    ) by {
                        if j < i {
                            assert(ks.take(i + 1)[j] == ks.take(i as int)[j]);
                        }
                    }
                }
            }
            i = i + 1;
        }
        true
    }

    /// Seconds until the next candidate becomes due, by the machine's clock;
    /// see `next_due_in_at`. `None` as well when a due time reached does not
    /// fit a `u64`.
    pub fn next_due_in(&self, candidates: &[String]) -> (r: Option<u64>)
        requires
            self.wf(),
        ensures
            exists|now: u64|
                #[trigger] due_times_fit(self.items(), candidate_keys(candidates@), now) ==> match r {
                    Some(w) => next_due_wait(self.items(), candidate_keys(candidates@), now) == Some(
                        w as int,
                    ),
                    None => next_due_wait(self.items(), candidate_keys(candidates@), now) is None,
                },
            r is Some ==> exists|now: u64| #[trigger] next_due_wait(self.items(), candidate_keys(candidates@), now) == Some(r->0 as int),
    {
        let now = now_secs();
        if self.due_times_fit_at(candidates, now) {
            self.next_due_in_at(candidates, now)
        } else {
            None
        }
    }


    /// The tier of a candidate key, and the box of its item when tracked.
    fn classify(&self, key: &String, skip: &Option<String>, now: u64) -> (r: (u8, u8))
        requires
            self.wf(),
        ensures
            r.0 == tier(self.items(), opt_string_view(*skip), key@, now),
            (r.0 == 1 || r.0 == 3) ==> self.items().contains_key(key@) && r.1
                == self.items()[key@].box_level,
    {
        let skipped = match skip {
            Some(s) => *s == *key,
            None => false,
        };
        if skipped {
            return (0, 0);
        }
        match self.lookup(key) {
            None => (2, 0),
            Some(d) => if d.is_due(now) {
                (1, d.box_level)
            } else {
                (3, d.box_level)
            },
        }
    }

    /// The positions of the candidates to pick from at `now`, skipping the
    /// key `skip`; see `tier_pool`.
    fn tier_pool_at(&self, candidates: &[String], skip: &Option<String>, now: u64) -> (r: Vec<
        usize,
    >)
        requires
            self.wf(),
        ensures
            position_views(r@) == tier_pool(
                self.items(),
                candidate_keys(candidates@),
                opt_string_view(*skip),
                now,
            ),
    {
        let ghost ks = candidate_keys(candidates@);
        let ghost m = self.items();
        let ghost sk = opt_string_view(*skip);
        let n = candidates.len();
        let mut has1 = false;
        let mut min1: u8 = 0;
        let mut has2 = false;
        let mut has3 = false;
        let mut min3: u8 = 0;
        let mut i: usize = 0;
        while i < n
            invariant
                self.wf(),
                n == candidates@.len(),
                i <= n,
                ks == candidate_keys(candidates@),
                m == self.items(),
                sk == opt_string_view(*skip),
                has1 <==> exists|j: int| 0 <= j < i && #[trigger] tier(m, sk, ks[j], now) == 1,
                has1 ==> exists|j: int|
                    0 <= j < i && #[trigger] tier(m, sk, ks[j], now) == 1 && m[ks[j]].box_level
                        == min1,
                forall|j: int|
                    0 <= j < i && #[trigger] tier(m, sk, ks[j], now) == 1 ==> min1
                        <= m[ks[j]].box_level,
                has2 <==> exists|j: int| 0 <= j < i && #[trigger] tier(m, sk, ks[j], now) == 2,
                has3 <==> exists|j: int| 0 <= j < i && #[trigger] tier(m, sk, ks[j], now) == 3,
                has3 ==> exists|j: int|
                    0 <= j < i && #[trigger] tier(m, sk, ks[j], now) == 3 && m[ks[j]].box_level
                        == min3,
                forall|j: int|
                    0 <= j < i && #[trigger] tier(m, sk, ks[j], now) == 3 ==> min3
                        <= m[ks[j]].box_level,
            decreases n - i,
        {
            let key = &candidates[i];
            proof {
                assert(ks[i as int] == key@);
            }
            let (t, level) = self.classify(key, skip, now);
            if t == 1 {
                if !has1 || level < min1 {
                    min1 = level;
                }
                has1 = true;
            } else if t == 2 {
                has2 = true;
            } else if t == 3 {
                if !has3 || level < min3 {
                    min3 = level;
                }
                has3 = true;
            }
            i = i + 1;
        }
        let sel: u8 = if has1 {
            1
        } else if has2 {
            2
        } else if has3 {
            3
        } else {
            0
        };
        let least: u8 = if has1 {
            min1
        } else {
            min3
        };
        assert(sel == selected_tier(m, ks, sk, now));
        let mut out: Vec<usize> = Vec::new();
        if sel == 0 {
            assert(position_views(out@) =~= Seq::<int>::empty());
            return out;
        }
        let ghost pred = pool_pred(m, ks, sk, now, sel as int);
        let ghost pos = positions(ks.len());
        let mut i: usize = 0;
        while i < n
            invariant
                self.wf(),
                n == candidates@.len(),
                i <= n,
                ks == candidate_keys(candidates@),
                m == self.items(),
                sk == opt_string_view(*skip),
                1 <= sel <= 3,
                pred == pool_pred(m, ks, sk, now, sel as int),
                pos == positions(ks.len()),
                sel == 1 || sel == 3 ==> (exists|j: int|
                    0 <= j < n && #[trigger] tier(m, sk, ks[j], now) == sel as int
                        && m[ks[j]].box_level == least),
                sel == 1 || sel == 3 ==> (forall|j: int|
                    0 <= j < n && #[trigger] tier(m, sk, ks[j], now) == sel as int ==> least
                        <= m[ks[j]].box_level),
                position_views(out@) == pos.take(i as int).filter(pred),
            decreases n - i,
        {
            let key = &candidates[i];
            proof {
                assert(ks[i as int] == key@);
                assert(pos[i as int] == i as int);
                lemma_filter_take(pos, pred, i as int);
            }
            let (t, level) = self.classify(key, skip, now);
            let keep = t == sel && (sel == 2 || level == least);
            proof {
                if sel != 2 {
                    if pred(i as int) {
                        let w = choose|j: int|
                            0 <= j < n && #[trigger] tier(m, sk, ks[j], now) == sel as int
                                && m[ks[j]].box_level == least;
                        assert(m[ks[i as int]].box_level <= m[ks[w]].box_level);
                    }
                    if keep {
                        assert forall|j: int|
                            0 <= j < ks.len() && #[trigger] tier(m, sk, ks[j], now)
                                == sel as int implies m[ks[i as int]].box_level
                            <= m[ks[j]].box_level by {}
                    }
                }
                assert(keep == pred(i as int));
            }
            let ghost before = out@;
            if keep {
                out.push(i);
                assert(position_views(out@) =~= position_views(before).push(i as int));
            }
            i = i + 1;
        }
        proof {
            lemma_take_all(pos);
        }
        out
    }

    /// The positions of the candidates `next_item` picks from at `now`; see
    /// `review_pool`.
    pub fn review_pool_at(&self, candidates: &[String], now: u64) -> (r: Vec<usize>)
        requires
            self.wf(),
        ensures
            position_views(r@) == review_pool(
                self.items(),
                candidate_keys(candidates@),
                self.last_key(),
                now,
            ),
    {
        let p = self.tier_pool_at(candidates, &self.last_key, now);
        if p.len() == 0 {
            let none: Option<String> = None;
            self.tier_pool_at(candidates, &none, now)
        } else {
            p
        }
    }

    /// Picks the next item to review from the candidates: at random among
    /// the due items of the lowest box; else among the keys not seen yet;
    /// else among the items of the lowest box. The key answered last is
    /// skipped unless it is the only candidate. `None` only when there are
    /// no candidates.
    pub fn next_item<'a>(&self, candidates: &'a [String]) -> (r: Option<&'a str>)
        requires
            self.wf(),
        ensures
            r is None <==> candidates@.len() == 0,
            r matches Some(s) ==> exists|now: u64, p: int|
                0 <= p < review_pool(
                    self.items(),
                    candidate_keys(candidates@),
                    self.last_key(),
                    now,
                ).len() && s@ == candidate_keys(candidates@)[#[trigger] review_pool(
                    self.items(),
                    candidate_keys(candidates@),
                    self.last_key(),
                    now,
                )[p]],
    {
        if candidates.len() == 0 {
            return None;
        }
        let now = now_secs();
        let pool = self.review_pool_at(candidates, now);
        let ghost ks = candidate_keys(candidates@);
        let ghost rp = review_pool(self.items(), ks, self.last_key(), now);
        proof {
            lemma_review_pool_nonempty(self.items(), ks, self.last_key(), now);
            assert(pool@.len() == rp.len());
        }
        let mut rng = thread_rng();
        let k = gen_index(&mut rng, pool.len());
        let at = pool[k];
        proof {
            assert(rp[k as int] == at as int);
            lemma_review_pool_in_range(self.items(), ks, self.last_key(), now, k as int);
        }
        Some(candidates[at].as_str())
    }


    /// Adds or replaces the item of a key.
    fn upsert(&mut self, key: String, item: ItemData)
        requires
            old(self).wf(),
            item.box_level < NUM_BOXES,
        ensures
            final(self).wf(),
            final(self).items() == old(self).items().insert(key@, item),
            final(self).last_key() == old(self).last_key(),
    {
        let ghost before = self.entries@;
        match self.find(&key) {
            Some(i) => {
                proof {
                    Self::lemma_set_entry(before, i as int, (key, item));
                }
                self.entries.set(i, (key, item));
            },
            None => {
                proof {
                    Self::lemma_entries_map(before);
                    Self::lemma_push_entry(before, (key, item));
                }
                self.entries.push((key, item));
            },
        }
        assert forall|j: int| 0 <= j < self.entries@.len() implies (
        #[trigger] self.entries@[j]).1.box_level < NUM_BOXES by {
            if j < before.len() && self.entries@[j] == before[j] {
            }
        }
    }

    /// A deck that tracks the given items (a later entry for a key replaces
    /// an earlier one), with no key answered last.
    pub fn from_entries(entries: Vec<(String, ItemData)>) -> (r: Deck)
        requires
            forall|i: int|
                0 <= i < entries@.len() ==> (#[trigger] entries@[i]).1.box_level < NUM_BOXES,
        ensures
            r.wf(),
            r.items() == entries_map(entries@),
            r.last_key() is None,
    {
        let mut deck = Deck::new();
        let n = entries.len();
        let mut i: usize = 0;
        while i < n
            invariant
                n == entries@.len(),
                i <= n,
                forall|j: int|
                    0 <= j < entries@.len() ==> (#[trigger] entries@[j]).1.box_level < NUM_BOXES,
                deck.wf(),
                deck.items() == entries_map(entries@.take(i as int)),
                deck.last_key() is None,
            decreases n - i,
        {
            let e = &entries[i];
            let item = ItemData {
                box_level: e.1.box_level,
                last_reviewed: e.1.last_reviewed,
                times_correct: e.1.times_correct,
                times_wrong: e.1.times_wrong,
            };
            let key = e.0.clone();
            assert(entries@[i as int] == (key, item));
            deck.upsert(key, item);
            assert(entries@.take(i + 1).drop_last() =~= entries@.take(i as int));
            i = i + 1;
        }
        proof {
            lemma_take_all(entries@);
        }
        deck
    }

    /// The tracked items as a list of entries, one per key.
    pub fn to_entries(&self) -> (r: Vec<(String, ItemData)>)
        requires
            self.wf(),
        ensures
            entries_map(r@) == self.items(),
            entry_keys(r@).no_duplicates(),
            forall|i: int| 0 <= i < r@.len() ==> (#[trigger] r@[i]).1.box_level < NUM_BOXES,
    {
        let mut out: Vec<(String, ItemData)> = Vec::new();
        let n = self.entries.len();
        let mut i: usize = 0;
        while i < n
            invariant
                n == self.entries@.len(),
                i <= n,
                out@ == self.entries@.take(i as int),
            decreases n - i,
        {
            let e = &self.entries[i];
            let item = ItemData {
                box_level: e.1.box_level,
                last_reviewed: e.1.last_reviewed,
                times_correct: e.1.times_correct,
                times_wrong: e.1.times_wrong,
            };
            out.push((e.0.clone(), item));
            assert(out@ =~= self.entries@.take(i + 1));
            i = i + 1;
        }
        proof {
            lemma_take_all(self.entries@);
        }
        out
    }

}

impl Default for Deck {
    fn default() -> (r: Deck)
        ensures
            r.wf(),
            r.items() == Map::<Seq<char>, ItemData>::empty(),
            r.last_key() is None,
    {
        Deck::new()
    }
}

} // verus!
