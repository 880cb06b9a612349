use std::collections::VecDeque;
use vstd::multiset::Multiset;
use vstd::prelude::*;

use crate::card::{seq_has_content, Card};
use crate::lemmas::{
    lemma_add_cards, lemma_boxed_cards_empty, lemma_distinct_ids_sound, lemma_import_ids_sound,
    lemma_process_keeps_cards, lemma_refill_keeps_cards,
};
use crate::queue::{BoxView, Queue, CARDS_PER_CM};

verus! {

/// What a deck holds, as Verus sees it.
pub struct DeckView {
    /// The boxes, first box (shortest review interval) at index 0.
    pub boxes: Seq<BoxView>,
    /// Cards waiting to enter the first box.
    pub stash: Seq<Card>,
    /// Cards that graduated out of the last box.
    pub done: Seq<Card>,
    /// The id that the next new card gets.
    pub next_id: nat,
}

/// A box is due for review once less than a centimetre of room is left in it.
pub open spec fn is_due(b: BoxView) -> bool {
    b.free_space() < CARDS_PER_CM
}

/// The last `k` cards of `s`, last one first: the order in which they leave
/// the end of `s` one by one.
pub open spec fn taken_from_back(s: Seq<Card>, k: nat) -> Seq<Card> {
    Seq::new(k, |j: int| s[s.len() - 1 - j])
}

/// The cards of all boxes, counted with repetition.
pub open spec fn boxed_cards(boxes: Seq<BoxView>) -> Multiset<Card>
    decreases boxes.len(),
{
    if boxes.len() == 0 {
        Multiset::empty()
    } else {
        boxed_cards(boxes.drop_last()).add(boxes.last().cards.to_multiset())
    }
}

/// The cards of all boxes in one sequence, box after box.
pub open spec fn flat_cards(boxes: Seq<BoxView>) -> Seq<Card>
    decreases boxes.len(),
{
    if boxes.len() == 0 {
        Seq::empty()
    } else {
        flat_cards(boxes.drop_last()) + boxes.last().cards
    }
}

impl DeckView {
    /// Every card of the deck in one sequence: the stash, the boxes in order,
    /// the done list.
    pub open spec fn card_seq(self) -> Seq<Card> {
        self.stash + flat_cards(self.boxes) + self.done
    }

    /// Along the sequence of all cards, every id is below the next one and no
    /// two ids are equal.
    pub open spec fn ids_distinct(self) -> bool {
        let s = self.card_seq();
        &&& forall|i: int| 0 <= i < s.len() ==> (#[trigger] s[i]).id < self.next_id
        &&& forall|i: int, j: int| 0 <= i < j < s.len() ==> (#[trigger] s[i]).id != (#[trigger] s[j]).id
    }

    /// Every card of the deck, wherever it is, counted with repetition.
    pub open spec fn all_cards(self) -> Multiset<Card> {
        self.stash.to_multiset().add(boxed_cards(self.boxes)).add(self.done.to_multiset())
    }

    /// Every card has an id below the next one, and no card is in the deck
    /// twice nor shares its id with another.
    pub open spec fn ids_sound(self) -> bool {
        let all = self.all_cards();
        &&& forall|c: Card| #[trigger] all.count(c) > 0 ==> c.id < self.next_id
        &&& forall|c: Card| #[trigger] all.count(c) <= 1
        &&& forall|c1: Card, c2: Card|
            #[trigger] all.count(c1) > 0 && #[trigger] all.count(c2) > 0 && c1.id == c2.id ==> c1 == c2
    }

    /// There is a first box, and each box holds at least a centimetre of cards.
    pub open spec fn wf(self) -> bool {
        &&& self.boxes.len() >= 1
        &&& forall|i: int| 0 <= i < self.boxes.len() ==> #[trigger] self.boxes[i].capacity >= CARDS_PER_CM
    }

    /// Some card of the stash or of a box shows `front` and answers with `back`.
    pub open spec fn holds_content(self, front: Seq<char>, back: Seq<char>) -> bool {
        ||| seq_has_content(self.stash, front, back)
        ||| exists|q: int| 0 <= q < self.boxes.len() && seq_has_content(#[trigger] self.boxes[q].cards, front, back)
    }

    /// The first box has room and the stash has a card to fill it with.
    pub open spec fn can_refill(self) -> bool {
        self.boxes[0].free_space() > 0 && self.stash.len() > 0
    }

    /// `r` is the box to review next: the first box while it holds more than
    /// three cards, else the first box that is due, else none.
    pub open spec fn selects(self, r: Option<usize>) -> bool {
        if self.boxes[0].cards.len() > 3 {
            r == Some(0usize)
        } else {
            match r {
                Some(i) => {
                    &&& i < self.boxes.len()
                    &&& is_due(self.boxes[i as int])
                    &&& forall|j: int| 0 <= j < i ==> !is_due(#[trigger] self.boxes[j])
                },
                None => forall|j: int| 0 <= j < self.boxes.len() ==> !is_due(#[trigger] self.boxes[j]),
            }
        }
    }

    /// The box that the front card of box `i` goes to: the first box when it was
    /// not known, the next box when it was, none when it graduates from the last.
    pub open spec fn destination(self, i: int, did_know: bool) -> Option<int> {
        if !did_know {
            Some(0)
        } else if i + 1 < self.boxes.len() {
            Some(i + 1)
        } else {
            None
        }
    }

    /// The deck after the front card of box `i` was reviewed.
    pub open spec fn after_process(self, i: int, did_know: bool) -> DeckView {
        let card = self.boxes[i].cards[0];
        let rest = self.boxes.update(
            i,
            BoxView { cards: self.boxes[i].cards.drop_first(), capacity: self.boxes[i].capacity },
        );
        match self.destination(i, did_know) {
            Some(t) => DeckView {
                boxes: rest.update(
                    t,
                    BoxView { cards: rest[t].cards.push(card), capacity: rest[t].capacity },
                ),
                ..self
            },
            None => DeckView { boxes: rest, done: self.done.push(card), ..self },
        }
    }

    /// How many cards a refill moves: as many as the first box has room for,
    /// at most the whole stash.
    pub open spec fn refill_count(self) -> nat {
        if self.stash.len() <= self.boxes[0].free_space() {
            self.stash.len()
        } else {
            self.boxes[0].free_space()
        }
    }

    /// The deck after a refill: cards leave the end of the stash one by one and
    /// join the back of the first box.
    pub open spec fn after_refill(self) -> DeckView {
        let k = self.refill_count();
        let first = self.boxes[0];
        DeckView {
            boxes: self.boxes.update(
                0,
                BoxView {
                    cards: first.cards + taken_from_back(self.stash, k),
                    capacity: first.capacity,
                },
            ),
            stash: self.stash.subrange(0, self.stash.len() - k),
            ..self
        }
    }

    /// The deck after a card with these texts was offered to the stash: it
    /// enters, with the next id, unless a card with the same texts is already
    /// in the stash or a box.
    pub open spec fn after_add(self, front: String, back: String) -> DeckView {
        if self.holds_content(front@, back@) {
            self
        } else {
            DeckView {
                stash: self.stash.push(Card { id: self.next_id as u64, front, back }),
                next_id: self.next_id + 1,
                ..self
            }
        }
    }

    /// The deck after the records were offered to the stash one after another.
    pub open spec fn after_import(self, records: Seq<(String, String)>) -> DeckView
        decreases records.len(),
    {
        if records.len() == 0 {
            self
        } else {
            let last = records.last();
            self.after_import(records.drop_last()).after_add(last.0, last.1)
        }
    }

    /// The records turned away while importing, in their order.
    pub open spec fn import_duplicates(self, records: Seq<(String, String)>) -> Seq<(String, String)>
        decreases records.len(),
    {
        if records.len() == 0 {
            Seq::empty()
        } else {
            let last = records.last();
            let before = self.import_duplicates(records.drop_last());
            if self.after_import(records.drop_last()).holds_content(last.0@, last.1@) {
                before.push(last)
            } else {
                before
            }
        }
    }
}

/// What an import did: how many cards entered the stash, and the records
/// that were turned away because a card with the same texts was already there.
pub struct ImportReport {
    pub added: usize,
    pub duplicates: Vec<(String, String)>,
}

/// A set of Leitner boxes, with the stash of cards not yet scheduled and the
/// cards that graduated.
///
/// A card that is known in the last box graduates: it moves to the done list
/// and is never scheduled again.
#[derive(Debug)]
pub struct Deck {
    stash: Vec<Card>,
    done: Vec<Card>,
    queues: Vec<Queue>,
    next_id: u64,
}

impl View for Deck {
    type V = DeckView;

    closed spec fn view(&self) -> DeckView {
        DeckView {
            boxes: self.queues@.map_values(|q: Queue| q@),
            stash: self.stash@,
            done: self.done@,
            next_id: self.next_id as nat,
        }
    }
}

impl Deck {
    /// A fresh deck: five empty boxes of 1, 2, 5, 8 and 14 cm, and an empty stash.
    pub fn new() -> (r: Deck)
        ensures
            r@.wf(),
            r@.boxes.len() == 5,
            r@.boxes[0].capacity == 20,
            r@.boxes[1].capacity == 40,
            r@.boxes[2].capacity == 100,
            r@.boxes[3].capacity == 160,
            r@.boxes[4].capacity == 280,
            forall|i: int| 0 <= i < 5 ==> (#[trigger] r@.boxes[i]).cards.len() == 0,
            forall|i: int|
                0 <= i < 5 ==> (#[trigger] r@.boxes[i]).free_space() == r@.boxes[i].capacity
                    - r@.boxes[i].cards.len(),
            r@.stash.len() == 0,
            r@.done.len() == 0,
            r@.next_id == 0,
            r@.ids_sound(),
    {
        let queues = vec![Queue::new(1), Queue::new(2), Queue::new(5), Queue::new(8), Queue::new(14)];
        let r = Deck { stash: Vec::new(), done: Vec::new(), queues, next_id: 0 };
        assert(r@.boxes.len() == 5);
        proof {
            broadcast use vstd::seq_lib::group_to_multiset_ensures;

            lemma_boxed_cards_empty(r@.boxes);
            assert(r@.stash.to_multiset().len() == 0);
            assert(r@.done.to_multiset().len() == 0);
            assert(r@.all_cards() =~= Multiset::<Card>::empty());
        }
        r
    }

    /// The index of the box to review next, if any is due.
    pub fn get_next_queue(&self) -> (r: Option<usize>)
        requires
            self@.wf(),
        ensures
            self@.selects(r),
    {
        if self.queues[0].len() > 3 {
            return Some(0);
        }
        let mut i: usize = 0;
        while i < self.queues.len()
            invariant
                0 <= i <= self.queues@.len(),
                self@.boxes.len() == self.queues@.len(),
                self@.boxes[0].cards.len() <= 3,
                forall|j: int| 0 <= j < i ==> !is_due(#[trigger] self@.boxes[j]),
            decreases self.queues@.len() - i,
        {
            assert(self@.boxes[i as int] == self.queues@[i as int]@);
            if self.queues[i].free_space() < CARDS_PER_CM {
                return Some(i);
            }
            i += 1;
        }
        None
    }

    /// Moves the front card of box `queue` after a review: to the back of the
    /// first box when it was not known, to the back of the next box when it was
    /// known, and to the done list when it was known in the last box.
    pub fn process(&mut self, queue: usize, did_know: bool)
        requires
            old(self)@.wf(),
            queue < old(self)@.boxes.len(),
            old(self)@.boxes[queue as int].cards.len() > 0,
        ensures
            final(self)@ == old(self)@.after_process(queue as int, did_know),
            final(self)@.wf(),
            old(self)@.ids_sound() ==> final(self)@.ids_sound(),
    {
        let ghost d0 = self@;
        let card = self.queues[queue].pop_front();
        let ghost d1 = self@;
        assert(d1.boxes =~= d0.boxes.update(
            queue as int,
            BoxView { cards: d0.boxes[queue as int].cards.drop_first(), capacity: d0.boxes[queue as int].capacity },
        ));
        if !did_know {
            self.queues[0].push_back(card);
        } else if queue < self.queues.len() - 1 {
            self.queues[queue + 1].push_back(card);
        } else {
            self.done.push(card);
        }
        assert(self@.boxes =~= d0.after_process(queue as int, did_know).boxes);
        proof {
            lemma_process_keeps_cards(d0, queue as int, did_know);
        }
    }

    pub fn can_refill(&self) -> (r: bool)
        requires
            self@.wf(),
        ensures
            r == self@.can_refill(),
    {
        self.queues[0].free_space() > 0 && self.stash.len() > 0
    }

    pub fn stash_size(&self) -> (r: usize)
        ensures
            r == self@.stash.len(),
    {
        self.stash.len()
    }

    /// Moves cards from the stash to the back of the first box until the box
    /// is full or the stash is empty.
    pub fn refill(&mut self)
        requires
            old(self)@.wf(),
        ensures
            final(self)@ == old(self)@.after_refill(),
            !final(self)@.can_refill(),
            old(self)@.ids_sound() ==> final(self)@.ids_sound(),
    {
        let ghost d0 = self@;
        let ghost n0 = d0.stash.len();
        while self.can_refill()
            invariant
                self@.wf(),
                n0 == d0.stash.len(),
                self.stash@.len() <= n0,
                n0 - self.stash@.len() <= d0.boxes[0].free_space(),
                self@.boxes[0].free_space() == d0.boxes[0].free_space() - (n0 - self.stash@.len()),
                self@.stash == d0.stash.subrange(0, self.stash@.len() as int),
                self@.boxes[0].cards == d0.boxes[0].cards + taken_from_back(
                    d0.stash,
                    (n0 - self.stash@.len()) as nat,
                ),
                self@.boxes[0].capacity == d0.boxes[0].capacity,
                self@.boxes.len() == d0.boxes.len(),
                forall|j: int| 1 <= j < d0.boxes.len() ==> self@.boxes[j] == #[trigger] d0.boxes[j],
                self@.done == d0.done,
                self@.next_id == d0.next_id,
            decreases self.stash@.len(),
        {
            let ghost before = self@;
            let card = self.stash.pop().unwrap();
            self.queues[0].push_back(card);
            assert(self@.boxes[0].cards =~= d0.boxes[0].cards + taken_from_back(
                d0.stash,
                (n0 - self.stash@.len()) as nat,
            ));
            assert(self@.stash =~= d0.stash.subrange(0, self.stash@.len() as int));
            assert forall|j: int| 1 <= j < d0.boxes.len() implies self@.boxes[j] == #[trigger] d0.boxes[j] by {
                assert(self@.boxes[j] == before.boxes[j]);
            }
            assert forall|j: int| 0 <= j < self@.boxes.len() implies #[trigger] self@.boxes[j].capacity >= CARDS_PER_CM by {
                assert(self@.boxes[j].capacity == before.boxes[j].capacity);
            }
        }
        assert(self@.boxes =~= d0.after_refill().boxes);
        proof {
            lemma_refill_keeps_cards(d0);
        }
    }

    /// Whether a card with these texts is in the stash or in a box.
    pub fn card_exists(&self, front: &String, back: &String) -> (r: bool)
        ensures
            r == self@.holds_content(front@, back@),
    {
        let mut i: usize = 0;
        while i < self.stash.len()
            invariant
                0 <= i <= self.stash@.len(),
                forall|j: int| 0 <= j < i ==> !(#[trigger] self.stash@[j]).has_content(front@, back@),
            decreases self.stash@.len() - i,
        {
            if self.stash[i].same_content(front, back) {
                return true;
            }
            i += 1;
        }
        let mut q: usize = 0;
        while q < self.queues.len()
            invariant
                0 <= q <= self.queues@.len(),
                self@.boxes.len() == self.queues@.len(),
                !seq_has_content(self@.stash, front@, back@),
                forall|j: int| 0 <= j < q ==> !seq_has_content(#[trigger] self@.boxes[j].cards, front@, back@),
            decreases self.queues@.len() - q,
        {
            assert(self@.boxes[q as int] == self.queues@[q as int]@);
            if self.queues[q].contains_content(front, back) {
                return true;
            }
            q += 1;
        }
        false
    }

    /// Offers a card with these texts to the stash. It enters, with a fresh
    /// id, unless a card with the same texts is already in the stash or a box;
    /// the result tells whether it entered.
    pub fn add_card(&mut self, front: String, back: String) -> (added: bool)
        requires
            old(self)@.next_id < u64::MAX,
        ensures
            added == !old(self)@.holds_content(front@, back@),
            final(self)@ == old(self)@.after_add(front, back),
            old(self)@.ids_sound() ==> final(self)@.ids_sound(),
    {
        proof {
            lemma_add_cards(self@, front, back);
        }
        if self.card_exists(&front, &back) {
            false
        } else {
            self.push_new(front, back);
            true
        }
    }

    /// Puts a new card with the next id at the end of the stash.
    fn push_new(&mut self, front: String, back: String)
        requires
            old(self)@.next_id < u64::MAX,
        ensures
            final(self)@ == (DeckView {
                stash: old(self)@.stash.push(Card { id: old(self)@.next_id as u64, front, back }),
                next_id: old(self)@.next_id + 1,
                ..old(self)@
            }),
    {
        let id = self.next_id;
        self.stash.push(Card::new(id, front, back));
        self.next_id = id + 1;
    }

    /// Offers each record, a front and a back, to the stash in turn, as
    /// [`Deck::add_card`] does.
    pub fn import(&mut self, records: Vec<(String, String)>) -> (r: ImportReport)
        requires
            old(self)@.next_id + records@.len() <= u64::MAX,
        ensures
            final(self)@ == old(self)@.after_import(records@),
            r.duplicates@ == old(self)@.import_duplicates(records@),
            r.added == final(self)@.stash.len() - old(self)@.stash.len(),
            old(self)@.ids_sound() ==> final(self)@.ids_sound(),
    {
        proof {
            if self@.ids_sound() {
                lemma_import_ids_sound(self@, records@);
            }
        }
        let ghost d0 = self@;
        let ghost all = records@;
        assert(all.len() == records.len());
        let mut rest = records;
        let mut duplicates: Vec<(String, String)> = Vec::new();
        let mut added: usize = 0;
        let mut i: usize = 0;
        while rest.len() > 0
            invariant
                i <= all.len(),
                all.len() <= usize::MAX,
                added <= i,
                rest@ == all.subrange(i as int, all.len() as int),
                self@ == d0.after_import(all.subrange(0, i as int)),
                duplicates@ == d0.import_duplicates(all.subrange(0, i as int)),
                added == self@.stash.len() - d0.stash.len(),
                self@.stash.len() >= d0.stash.len(),
                self@.next_id <= d0.next_id + i,
                d0.next_id + all.len() <= u64::MAX,
            decreases rest@.len(),
        {
            let ghost done_recs = all.subrange(0, i as int);
            let (front, back) = rest.remove(0);
            assert(all.subrange(0, i + 1).drop_last() =~= done_recs);
            assert(all.subrange(0, i + 1).last() == all[i as int]);
            if self.card_exists(&front, &back) {
                duplicates.push((front, back));
            } else {
                self.push_new(front, back);
                added = added + 1;
            }
            i = i + 1;
            assert(rest@ =~= all.subrange(i as int, all.len() as int));
        }
        assert(all.subrange(0, i as int) =~= all);
        ImportReport { added, duplicates }
    }

    /// A deck made of stored parts, or `None` when they do not make one: no
    /// box, a box of less than a centimetre, an id not below `next_id`, or two
    /// cards with one id.
    pub fn from_parts(queues: Vec<Queue>, stash: Vec<Card>, done: Vec<Card>, next_id: u64) -> (r: Option<Deck>)
        ensures
            match r {
                Some(d) => {
                    &&& d@.wf()
                    &&& d@.ids_sound()
                    &&& d@.boxes == queues@.map_values(|q: Queue| q@)
                    &&& d@.stash == stash@
                    &&& d@.done == done@
                    &&& d@.next_id == next_id
                },
                None => {
                    let v = DeckView {
                        boxes: queues@.map_values(|q: Queue| q@),
                        stash: stash@,
                        done: done@,
                        next_id: next_id as nat,
                    };
                    !(v.wf() && v.ids_distinct())
                },
            },
    {
        let ghost boxes = queues@.map_values(|q: Queue| q@);
        let mut ids: Vec<u64> = Vec::new();
        extend_ids(&mut ids, &stash);
        let mut q: usize = 0;
        while q < queues.len()
            invariant
                0 <= q <= queues@.len(),
                boxes == queues@.map_values(|q: Queue| q@),
                ids@ == (stash@ + flat_cards(boxes.subrange(0, q as int))).map_values(|c: Card| c.id),
            decreases queues@.len() - q,
        {
            let ghost before = ids@;
            extend_ids_deque(&mut ids, queues[q].cards());
            proof {
                let b = boxes.subrange(0, q + 1);
                assert(b.drop_last() =~= boxes.subrange(0, q as int));
                assert(b.last() == queues@[q as int]@);
                assert(ids@ =~= (stash@ + flat_cards(b)).map_values(|c: Card| c.id));
            }
            q += 1;
        }
        extend_ids(&mut ids, &done);
        let ghost v = DeckView { boxes, stash: stash@, done: done@, next_id: next_id as nat };
        assert(boxes.subrange(0, queues@.len() as int) =~= boxes);
        assert(ids@ =~= v.card_seq().map_values(|c: Card| c.id));
        if !ids_below_and_distinct(&ids, next_id) {
            return None;
        }
        proof {
            let cs = v.card_seq();
            assert forall|i: int| 0 <= i < cs.len() implies (#[trigger] cs[i]).id == ids@[i] by {}
            assert forall|i: int, j: int| 0 <= i < j < cs.len() implies (#[trigger] cs[i]).id != (#[trigger] cs[j]).id by {
                assert(ids@[i] != ids@[j]);
            }
            lemma_distinct_ids_sound(v);
        }
        if queues.len() == 0 {
            return None;
        }
        let mut i: usize = 0;
        while i < queues.len()
            invariant
                0 <= i <= queues@.len(),
                forall|j: int| 0 <= j < i ==> (#[trigger] queues@[j])@.capacity >= CARDS_PER_CM,
            decreases queues@.len() - i,
        {
            if queues[i].capacity() < CARDS_PER_CM {
                assert(queues@.map_values(|q: Queue| q@)[i as int] == queues@[i as int]@);
                return None;
            }
            i += 1;
        }
        let d = Deck { stash, done, queues, next_id };
        assert forall|j: int| 0 <= j < d@.boxes.len() implies #[trigger] d@.boxes[j].capacity >= CARDS_PER_CM by {
            assert(d@.boxes[j] == d.queues@[j]@);
        }
        Some(d)
    }

    /// The boxes, first box first.
    pub fn queues(&self) -> (r: &Vec<Queue>)
        ensures
            r@.map_values(|q: Queue| q@) == self@.boxes,
    {
        &self.queues
    }

    pub fn stash(&self) -> (r: &Vec<Card>)
        ensures
            r@ == self@.stash,
    {
        &self.stash
    }

    pub fn done(&self) -> (r: &Vec<Card>)
        ensures
            r@ == self@.done,
    {
        &self.done
    }

    pub fn next_id(&self) -> (r: u64)
        ensures
            r == self@.next_id,
    {
        self.next_id
    }
}

/// Appends the ids of `cards` to `ids`.
fn extend_ids(ids: &mut Vec<u64>, cards: &Vec<Card>)
    ensures
        final(ids)@ == old(ids)@ + cards@.map_values(|c: Card| c.id),
{
    let ghost start = ids@;
    let mut i: usize = 0;
    while i < cards.len()
        invariant
            0 <= i <= cards@.len(),
            ids@ == start + cards@.subrange(0, i as int).map_values(|c: Card| c.id),
        decreases cards@.len() - i,
    {
        ids.push(cards[i].id);
        i += 1;
        assert(ids@ =~= start + cards@.subrange(0, i as int).map_values(|c: Card| c.id));
    }
    assert(cards@.subrange(0, i as int) =~= cards@);
}

/// Appends the ids of `cards` to `ids`.
fn extend_ids_deque(ids: &mut Vec<u64>, cards: &VecDeque<Card>)
    ensures
        final(ids)@ == old(ids)@ + cards@.map_values(|c: Card| c.id),
{
    let ghost start = ids@;
    let mut i: usize = 0;
    while i < cards.len()
        invariant
            0 <= i <= cards@.len(),
            ids@ == start + cards@.subrange(0, i as int).map_values(|c: Card| c.id),
        decreases cards@.len() - i,
    {
        ids.push(cards[i].id);
        i += 1;
        assert(ids@ =~= start + cards@.subrange(0, i as int).map_values(|c: Card| c.id));
    }
    assert(cards@.subrange(0, i as int) =~= cards@);
}

/// Whether every id is below `bound` and no two are equal.
fn ids_below_and_distinct(ids: &Vec<u64>, bound: u64) -> (r: bool)
    ensures
        r == ((forall|i: int| 0 <= i < ids@.len() ==> #[trigger] ids@[i] < bound) && (forall|i: int, j: int|
            0 <= i < j < ids@.len() ==> #[trigger] ids@[i] != #[trigger] ids@[j])),
{
    let mut i: usize = 0;
    while i < ids.len()
        invariant
            0 <= i <= ids@.len(),
            forall|k: int| 0 <= k < i ==> #[trigger] ids@[k] < bound,
            forall|k: int, j: int| 0 <= k < i && k < j < ids@.len() ==> #[trigger] ids@[k] != #[trigger] ids@[j],
        decreases ids@.len() - i,
    {
        if ids[i] >= bound {
            return false;
        }
        let mut j: usize = i + 1;
        while j < ids.len()
            invariant
                i < ids@.len(),
                i + 1 <= j <= ids@.len(),
                forall|k: int| i < k < j ==> #[trigger] ids@[k] != ids@[i as int],
            decreases ids@.len() - j,
        {
            if ids[j] == ids[i] {
                return false;
            }
            j += 1;
        }
        i += 1;
    }
    true
}

} // verus!
