use std::collections::VecDeque;

use leitner::card::Card;
use leitner::deck::Deck;
use leitner::queue::{Queue, CARDS_PER_CM};
use leitner::session::{App, CurrentScreen};

fn card(id: u64, front: &str, back: &str) -> Card {
    Card::new(id, front.to_string(), back.to_string())
}

fn boxed(cards: Vec<Card>, capacity: usize) -> Queue {
    Queue::from_parts(cards.into_iter().collect::<VecDeque<Card>>(), capacity)
}

fn numbered(first: u64, n: u64) -> Vec<Card> {
    (first..first + n).map(|i| card(i, &format!("q{}", i), &format!("a{}", i))).collect()
}

/// Five default-sized boxes holding the given cards.
fn deck_with(boxes: Vec<Vec<Card>>, stash: Vec<Card>) -> Deck {
    let caps = [20usize, 40, 100, 160, 280];
    let queues = boxes.into_iter().zip(caps.iter()).map(|(c, cap)| boxed(c, *cap)).collect();
    Deck::from_parts(queues, stash, Vec::new(), 1000).unwrap()
}

fn times_table() -> Vec<(String, String)> {
    let mut records = Vec::new();
    for a in 1..=9 {
        for b in 1..=9 {
            records.push((format!("{} x {}", a, b), format!("{}", a * b)));
        }
    }
    records
}

fn fronts(q: &Queue) -> Vec<String> {
    q.cards().iter().map(|c| c.front.clone()).collect()
}

#[test]
fn fresh_deck_has_default_boxes() {
    let deck = Deck::new();
    let caps: Vec<usize> = deck.queues().iter().map(|q| q.capacity()).collect();
    assert_eq!(caps, vec![20, 40, 100, 160, 280]);
    for q in deck.queues() {
        assert_eq!(q.len(), 0);
        assert_eq!(q.free_space(), q.capacity() - q.len());
    }
    assert_eq!(deck.stash_size(), 0);
    assert_eq!(deck.done().len(), 0);
    assert_eq!(deck.get_next_queue(), None);
    assert!(!deck.can_refill());
}

#[test]
fn queue_capacity_scales_with_size() {
    assert_eq!(CARDS_PER_CM, 20);
    assert_eq!(Queue::new(1).capacity(), 20);
    assert_eq!(Queue::new(14).capacity(), 280);
    assert_eq!(Queue::new(3).free_space(), 60);
}

#[test]
fn free_space_is_zero_when_over_capacity() {
    let q = boxed(numbered(0, 25), 20);
    assert_eq!(q.free_space(), 0);
    let q = boxed(numbered(0, 7), 20);
    assert_eq!(q.free_space(), 13);
}

#[test]
fn get_next_card_peeks_front() {
    let q = boxed(numbered(0, 3), 20);
    assert_eq!(q.get_next_card().unwrap().front, "q0");
    assert_eq!(q.len(), 3);
    assert!(Queue::new(1).get_next_card().is_none());
}

#[test]
fn free_space_holds_after_process_elsewhere() {
    let mut deck = deck_with(vec![numbered(0, 2), numbered(10, 5), vec![], vec![], vec![]], vec![]);
    deck.process(1, true);
    for (i, q) in deck.queues().iter().enumerate() {
        if i != 2 {
            assert_eq!(q.free_space(), q.capacity() - q.len());
        }
    }
    assert_eq!(deck.queues()[1].free_space(), 36);
}

#[test]
fn backlog_in_first_box_wins() {
    // box 2 is due (free space 10 < 20), but box 1 holds four cards
    let mut deck = deck_with(vec![numbered(0, 4), numbered(100, 30), vec![], vec![], vec![]], vec![]);
    assert_eq!(deck.get_next_queue(), Some(0));
    for _ in 0..4 {
        deck.process(0, true);
    }
    // box 1 is empty, so the first due box is box 2
    assert_eq!(deck.get_next_queue(), Some(1));
}

#[test]
fn four_cards_in_first_box_with_room_elsewhere() {
    let deck = deck_with(vec![numbered(0, 4), vec![], vec![], vec![], vec![]], vec![]);
    assert_eq!(deck.get_next_queue(), Some(0));
}

#[test]
fn first_due_box_is_selected() {
    let deck = deck_with(vec![vec![], numbered(10, 20), numbered(40, 81), vec![], vec![]], vec![]);
    // box 2 has exactly 20 free: not due; box 3 has 19 free: due
    assert_eq!(deck.get_next_queue(), Some(2));
    // one card leaves 19 free in box 1: due
    let deck = deck_with(vec![numbered(0, 1), vec![], vec![], vec![], vec![]], vec![]);
    assert_eq!(deck.get_next_queue(), Some(0));
    let deck = deck_with(vec![vec![], vec![], vec![], vec![], numbered(10, 260)], vec![]);
    assert_eq!(deck.get_next_queue(), None);
    let deck = deck_with(vec![vec![], vec![], vec![], vec![], numbered(10, 261)], vec![]);
    assert_eq!(deck.get_next_queue(), Some(4));
}

#[test]
fn forgotten_card_goes_to_first_box() {
    let mut deck = deck_with(vec![numbered(0, 2), vec![], numbered(10, 3), vec![], vec![]], vec![]);
    deck.process(2, false);
    assert_eq!(fronts(&deck.queues()[0]), vec!["q0", "q1", "q10"]);
    assert_eq!(fronts(&deck.queues()[2]), vec!["q11", "q12"]);
    assert_eq!(deck.queues()[0].cards().back().unwrap().id, 10);
}

#[test]
fn forgotten_card_in_first_box_goes_to_its_back() {
    let mut deck = deck_with(vec![numbered(0, 3), vec![], vec![], vec![], vec![]], vec![]);
    deck.process(0, false);
    assert_eq!(fronts(&deck.queues()[0]), vec!["q1", "q2", "q0"]);
}

#[test]
fn known_card_is_promoted() {
    let mut deck = deck_with(vec![vec![], numbered(0, 2), numbered(10, 1), vec![], vec![]], vec![]);
    deck.process(1, true);
    assert_eq!(fronts(&deck.queues()[1]), vec!["q1"]);
    assert_eq!(fronts(&deck.queues()[2]), vec!["q10", "q0"]);
}

#[test]
fn known_card_in_last_box_graduates() {
    let mut deck = deck_with(vec![vec![], vec![], vec![], vec![], numbered(0, 2)], vec![]);
    deck.process(4, true);
    assert_eq!(fronts(&deck.queues()[4]), vec!["q1"]);
    assert_eq!(deck.done().len(), 1);
    assert_eq!(deck.done()[0].front, "q0");
    for q in deck.queues() {
        assert!(q.cards().iter().all(|c| c.front != "q0"));
    }
    deck.process(4, true);
    assert_eq!(deck.done().len(), 2);
    assert_eq!(deck.get_next_queue(), None);
}

#[test]
fn refill_fills_first_box_from_end_of_stash() {
    let mut deck = deck_with(vec![numbered(0, 17), vec![], vec![], vec![], vec![]], numbered(100, 5));
    assert!(deck.can_refill());
    deck.refill();
    assert_eq!(deck.queues()[0].len(), 20);
    assert_eq!(deck.stash_size(), 2);
    let moved: Vec<String> = fronts(&deck.queues()[0])[17..].to_vec();
    assert_eq!(moved, vec!["q104", "q103", "q102"]);
    assert!(!deck.can_refill());
}

#[test]
fn refill_twice_changes_nothing_more() {
    let mut deck = deck_with(vec![numbered(0, 5), vec![], vec![], vec![], vec![]], numbered(100, 30));
    deck.refill();
    assert!(!deck.can_refill());
    let first: Vec<String> = fronts(&deck.queues()[0]);
    let stash = deck.stash_size();
    deck.refill();
    assert_eq!(fronts(&deck.queues()[0]), first);
    assert_eq!(deck.stash_size(), stash);
}

#[test]
fn refill_stops_when_stash_is_empty() {
    let mut deck = deck_with(vec![vec![], vec![], vec![], vec![], vec![]], numbered(0, 3));
    deck.refill();
    assert_eq!(deck.queues()[0].len(), 3);
    assert_eq!(deck.stash_size(), 0);
    assert!(!deck.can_refill());
}

#[test]
fn duplicate_record_is_not_added() {
    let mut deck = deck_with(vec![vec![], numbered(0, 2), vec![], vec![], vec![]], numbered(10, 1));
    let report = deck.import(vec![("q1".to_string(), "a1".to_string())]);
    assert_eq!(report.added, 0);
    assert_eq!(report.duplicates, vec![("q1".to_string(), "a1".to_string())]);
    assert_eq!(deck.stash_size(), 1);
    let report = deck.import(vec![("q10".to_string(), "a10".to_string())]);
    assert_eq!(report.added, 0);
    assert_eq!(deck.stash_size(), 1);
    // same front with another back is a different card
    let report = deck.import(vec![("q10".to_string(), "other".to_string())]);
    assert_eq!(report.added, 1);
    assert!(report.duplicates.is_empty());
    assert_eq!(deck.stash_size(), 2);
}

#[test]
fn duplicates_within_one_import() {
    let mut deck = Deck::new();
    let recs = vec![
        ("a".to_string(), "1".to_string()),
        ("b".to_string(), "2".to_string()),
        ("a".to_string(), "1".to_string()),
    ];
    let report = deck.import(recs);
    assert_eq!(report.added, 2);
    assert_eq!(report.duplicates, vec![("a".to_string(), "1".to_string())]);
    assert_eq!(deck.stash_size(), 2);
}

#[test]
fn new_cards_get_fresh_ids() {
    let mut deck = Deck::new();
    assert!(deck.add_card("x".to_string(), "y".to_string()));
    assert!(!deck.add_card("x".to_string(), "y".to_string()));
    assert!(deck.add_card("x".to_string(), "z".to_string()));
    let ids: Vec<u64> = deck.stash().iter().map(|c| c.id).collect();
    assert_eq!(ids, vec![0, 1]);
    assert_eq!(deck.next_id(), 2);
    assert!(deck.card_exists(&"x".to_string(), &"z".to_string()));
    assert!(!deck.card_exists(&"y".to_string(), &"x".to_string()));
}

#[test]
fn card_exists_looks_in_boxes_not_done() {
    let mut deck = deck_with(vec![vec![], vec![], vec![], vec![], numbered(0, 1)], vec![]);
    assert!(deck.card_exists(&"q0".to_string(), &"a0".to_string()));
    deck.process(4, true);
    assert!(!deck.card_exists(&"q0".to_string(), &"a0".to_string()));
}

#[test]
fn times_table_import_and_refill() {
    let mut deck = Deck::new();
    let report = deck.import(times_table());
    assert_eq!(report.added, 81);
    assert_eq!(deck.stash_size(), 81);
    assert!(deck.queues().iter().all(|q| q.len() == 0));
    assert!(deck.can_refill());
    deck.refill();
    assert_eq!(deck.queues()[0].len(), 20);
    assert_eq!(deck.stash_size(), 61);
    // the first box is full, which is what ends the refill
    assert_eq!(deck.queues()[0].free_space(), 0);
    assert!(!deck.can_refill());
    let again = deck.import(times_table());
    assert_eq!(again.added, 0);
    assert_eq!(again.duplicates.len(), 81);
}

#[test]
fn from_parts_rejects_unsound_decks() {
    assert!(Deck::from_parts(Vec::new(), Vec::new(), Vec::new(), 0).is_none());
    let small = vec![boxed(vec![], 20), boxed(vec![], 10)];
    assert!(Deck::from_parts(small, Vec::new(), Vec::new(), 0).is_none());
    let ok = vec![boxed(vec![], 20), boxed(vec![], 40)];
    let deck = Deck::from_parts(ok, numbered(0, 2), numbered(5, 1), 9).unwrap();
    assert_eq!(deck.queues().len(), 2);
    assert_eq!(deck.stash_size(), 2);
    assert_eq!(deck.done().len(), 1);
    assert_eq!(deck.next_id(), 9);
}

#[test]
fn from_parts_rejects_unsound_ids() {
    // one id in the stash and in a box
    let queues = vec![boxed(numbered(3, 1), 20)];
    assert!(Deck::from_parts(queues, numbered(3, 1), Vec::new(), 10).is_none());
    // an id not below the next one
    let queues = vec![boxed(numbered(0, 2), 20)];
    assert!(Deck::from_parts(queues, Vec::new(), Vec::new(), 1).is_none());
    // two cards with one id in the done list
    let done = vec![card(4, "x", "y"), card(4, "z", "w")];
    assert!(Deck::from_parts(vec![boxed(vec![], 20)], Vec::new(), done, 10).is_none());
    let queues = vec![boxed(numbered(0, 2), 20)];
    assert!(Deck::from_parts(queues, Vec::new(), Vec::new(), 2).is_some());
}

#[test]
fn session_reviews_and_refills() {
    let mut deck = Deck::new();
    deck.import(vec![
        ("a".to_string(), "1".to_string()),
        ("b".to_string(), "2".to_string()),
    ]);
    let mut app = App::new("deck.json".to_string(), deck);
    assert_eq!(app.current_queue, None);
    assert_eq!(app.current_screen, CurrentScreen::Asking);
    assert!(!app.handle_key(Some('x')));
    assert_eq!(app.deck.stash_size(), 2);
    assert!(!app.handle_key(Some('r')));
    assert_eq!(app.deck.stash_size(), 0);
    assert_eq!(app.deck.queues()[0].len(), 2);
    // two cards leave eighteen free in a box of twenty: it is due
    assert_eq!(app.current_queue, Some(0));
    assert!(app.handle_key(Some('q')));
    assert_eq!(app.file_name, "deck.json");
}

#[test]
fn session_key_flow() {
    let deck = deck_with(vec![numbered(0, 5), vec![], vec![], vec![], vec![]], vec![]);
    let mut app = App::new("d".to_string(), deck);
    assert_eq!(app.current_queue, Some(0));
    assert!(!app.handle_key(None));
    assert_eq!(app.current_screen, CurrentScreen::Checking);
    assert!(!app.handle_key(Some('y')));
    assert_eq!(app.current_screen, CurrentScreen::Asking);
    assert_eq!(fronts(&app.deck.queues()[1]), vec!["q0"]);
    assert_eq!(app.current_queue, Some(0));
    app.handle_key(Some(' '));
    assert!(!app.handle_key(Some('n')));
    assert_eq!(fronts(&app.deck.queues()[0]), vec!["q2", "q3", "q4", "q1"]);
    app.handle_key(Some(' '));
    app.handle_key(Some('k'));
    // an unrelated key on the back side only turns the card back
    assert_eq!(app.deck.queues()[0].len(), 4);
    assert_eq!(app.current_screen, CurrentScreen::Asking);
    app.process(true);
    assert_eq!(app.deck.queues()[0].len(), 3);
    assert_eq!(fronts(&app.deck.queues()[1]), vec!["q0", "q2"]);
    assert_eq!(app.current_queue, Some(0));
}
