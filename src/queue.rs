use std::collections::VecDeque;
use vstd::prelude::*;

use crate::card::{seq_has_content, Card};

verus! {

/// Cards in one centimetre of box: ten millimetres over a card thickness of
/// half a millimetre.
pub const CARDS_PER_CM: usize = 20;

/// What a box holds, as Verus sees it: its cards, front first, and its capacity.
pub struct BoxView {
    pub cards: Seq<Card>,
    pub capacity: nat,
}

impl BoxView {
    /// Room left before the box is full; none once it holds more than its
    /// capacity (the first box may, after demotions).
    pub open spec fn free_space(self) -> nat {
        if self.cards.len() <= self.capacity {
            (self.capacity - self.cards.len()) as nat
        } else {
            0
        }
    }
}

/// One Leitner box: cards in review order and a capacity fixed at creation.
#[derive(Debug)]
pub struct Queue {
    cards: VecDeque<Card>,
    capacity: usize,
}

impl View for Queue {
    type V = BoxView;

    closed spec fn view(&self) -> BoxView {
        BoxView { cards: self.cards@, capacity: self.capacity as nat }
    }
}

impl Queue {
    /// An empty box `size_cm` centimetres deep.
    pub fn new(size_cm: usize) -> (r: Queue)
        requires
            size_cm * CARDS_PER_CM <= usize::MAX,
        ensures
            r@.cards.len() == 0,
            r@.capacity == size_cm * CARDS_PER_CM,
    {
        Queue { cards: VecDeque::new(), capacity: CARDS_PER_CM * size_cm }
    }

    /// A box holding `cards` with the given capacity, as it was stored.
    pub fn from_parts(cards: VecDeque<Card>, capacity: usize) -> (r: Queue)
        ensures
            r@.cards == cards@,
            r@.capacity == capacity,
    {
        Queue { cards, capacity }
    }

    pub fn capacity(&self) -> (r: usize)
        ensures
            r == self@.capacity,
    {
        self.capacity
    }

    /// The cards, front first.
    pub fn cards(&self) -> (r: &VecDeque<Card>)
        ensures
            r@ == self@.cards,
    {
        &self.cards
    }

    /// Puts `card` at the back of the box, whatever room is left.
    pub fn push_back(&mut self, card: Card)
        ensures
            final(self)@.cards == old(self)@.cards.push(card),
            final(self)@.capacity == old(self)@.capacity,
    {
        self.cards.push_back(card);
    }

    /// Takes the card at the front out of a box that has one.
    pub fn pop_front(&mut self) -> (r: Card)
        requires
            old(self)@.cards.len() > 0,
        ensures
            r == old(self)@.cards[0],
            final(self)@.cards == old(self)@.cards.drop_first(),
            final(self)@.capacity == old(self)@.capacity,
    {
        self.cards.pop_front().unwrap()
    }

    pub fn len(&self) -> (r: usize)
        ensures
            r == self@.cards.len(),
    {
        self.cards.len()
    }

    pub fn free_space(&self) -> (r: usize)
        ensures
            r == self@.free_space(),
    {
        let n = self.cards.len();
        if n <= self.capacity {
            self.capacity - n
        } else {
            0
        }
    }

    /// The card at the front, the next one to review, if any.
    pub fn get_next_card(&self) -> (r: Option<&Card>)
        ensures
            match r {
                Some(c) => self@.cards.len() > 0 && *c == self@.cards[0],
                None => self@.cards.len() == 0,
            },
    {
        if self.cards.len() > 0 {
            Some(&self.cards[0])
        } else {
            None
        }
    }

    /// Whether some card of the box shows `front` and answers with `back`.
    pub fn contains_content(&self, front: &String, back: &String) -> (r: bool)
        ensures
            r == seq_has_content(self@.cards, front@, back@),
    {
        let mut i: usize = 0;
        while i < self.cards.len()
            invariant
                0 <= i <= self.cards@.len(),
                forall|j: int| 0 <= j < i ==> !(#[trigger] self.cards@[j]).has_content(front@, back@),
            decreases self.cards@.len() - i,
        {
            if self.cards[i].same_content(front, back) {
                return true;
            }
            i += 1;
        }
        false
    }
}

} // verus!
