use vstd::prelude::*;

verus! {

/// One flashcard: a prompt (`front`) and its answer (`back`).
///
/// The `id` tells apart cards whose texts are equal; checks for duplicates
/// compare the texts only, never the id.
#[derive(Debug)]
pub struct Card {
    pub id: u64,
    pub front: String,
    pub back: String,
}

impl Card {
    pub fn new(id: u64, front: String, back: String) -> (r: Card)
        ensures
            r.id == id,
            r.front == front,
            r.back == back,
    {
        Card { id, front, back }
    }

    /// The card shows `front` and answers with `back`.
    pub open spec fn has_content(self, front: Seq<char>, back: Seq<char>) -> bool {
        self.front@ == front && self.back@ == back
    }

    /// Compares the texts of the card with `front` and `back`.
    pub fn same_content(&self, front: &String, back: &String) -> (r: bool)
        ensures
            r == self.has_content(front@, back@),
    {
        self.front == *front && self.back == *back
    }
}

/// Some card of `cards` shows `front` and answers with `back`.
pub open spec fn seq_has_content(cards: Seq<Card>, front: Seq<char>, back: Seq<char>) -> bool {
    exists|i: int| 0 <= i < cards.len() && #[trigger] cards[i].has_content(front, back)
}

} // verus!
