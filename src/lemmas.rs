//! Facts about the deck model: how reviews, refills and imports move cards,
//! and that they keep card ids sound.

use vstd::multiset::Multiset;
use vstd::prelude::*;

use crate::card::Card;
use crate::deck::{boxed_cards, flat_cards, taken_from_back, DeckView};
use crate::queue::BoxView;

verus! {

/// After a review, every box that does not receive the card still has as room
/// its capacity less its cards, if it had before.
pub proof fn lemma_free_space_kept(d: DeckView, i: int, did_know: bool, j: int)
    requires
        d.wf(),
        0 <= i < d.boxes.len(),
        d.boxes[i].cards.len() > 0,
        0 <= j < d.boxes.len(),
        d.destination(i, did_know) != Some(j),
        d.boxes[j].cards.len() <= d.boxes[j].capacity,
    ensures
        ({
            let b = d.after_process(i, did_know).boxes[j];
            b.free_space() == b.capacity - b.cards.len()
        }),
{
}

/// While the first box holds more than three cards, it is the one selected.
pub proof fn lemma_backlog_first(d: DeckView, r: Option<usize>)
    requires
        d.selects(r),
        d.boxes[0].cards.len() > 3,
    ensures
        r == Some(0usize),
{
}

/// A card that was not known goes from the front of its box to the back of
/// the first box; any other box it came from has one card fewer.
pub proof fn lemma_forgotten_to_first_box(d: DeckView, i: int)
    requires
        d.wf(),
        0 <= i < d.boxes.len(),
        d.boxes[i].cards.len() > 0,
    ensures
        ({
            let e = d.after_process(i, false);
            &&& e.boxes.len() == d.boxes.len()
            &&& e.boxes[0].cards.last() == d.boxes[i].cards[0]
            &&& i != 0 ==> e.boxes[i].cards == d.boxes[i].cards.drop_first()
            &&& i != 0 ==> e.boxes[i].cards.len() == d.boxes[i].cards.len() - 1
            &&& i == 0 ==> e.boxes[0].cards == d.boxes[0].cards.drop_first().push(d.boxes[0].cards[0])
        }),
{
}

/// A card that was known in any box but the last goes from the front of its
/// box to the back of the next one.
pub proof fn lemma_known_promoted(d: DeckView, i: int)
    requires
        d.wf(),
        0 <= i < d.boxes.len() - 1,
        d.boxes[i].cards.len() > 0,
    ensures
        ({
            let e = d.after_process(i, true);
            &&& e.boxes[i + 1].cards == d.boxes[i + 1].cards.push(d.boxes[i].cards[0])
            &&& e.boxes[i].cards == d.boxes[i].cards.drop_first()
        }),
{
}

/// A card that was known in the last box leaves the boxes for the done list:
/// no box receives it.
pub proof fn lemma_graduation(d: DeckView)
    requires
        d.wf(),
        d.boxes[d.boxes.len() - 1].cards.len() > 0,
    ensures
        ({
            let last = d.boxes.len() - 1;
            let e = d.after_process(last, true);
            &&& e.done == d.done.push(d.boxes[last].cards[0])
            &&& e.boxes.len() == d.boxes.len()
            &&& e.boxes[last].cards == d.boxes[last].cards.drop_first()
            &&& forall|j: int| 0 <= j < last ==> #[trigger] e.boxes[j] == d.boxes[j]
        }),
{
}

/// No review, refill or import takes a card out of the done list.
pub proof fn lemma_done_kept(d: DeckView, i: int, did_know: bool, records: Seq<(String, String)>)
    requires
        d.wf(),
        0 <= i < d.boxes.len(),
        d.boxes[i].cards.len() > 0,
    ensures
        d.after_process(i, did_know).done.subrange(0, d.done.len() as int) == d.done,
        d.after_refill().done == d.done,
        d.after_import(records).done == d.done,
    decreases records.len(),
{
    assert(d.after_process(i, did_know).done.subrange(0, d.done.len() as int) =~= d.done);
    if records.len() > 0 {
        lemma_done_kept(d, i, did_know, records.drop_last());
    }
}

/// A refill leaves nothing more to refill, and a second refill right after it
/// changes nothing.
pub proof fn lemma_refill_idempotent(d: DeckView)
    requires
        d.wf(),
    ensures
        !d.after_refill().can_refill(),
        d.after_refill().after_refill() == d.after_refill(),
{
    let e = d.after_refill();
    assert(e.refill_count() == 0);
    assert(taken_from_back(e.stash, 0) =~= Seq::<Card>::empty());
    assert(e.boxes[0].cards + Seq::<Card>::empty() =~= e.boxes[0].cards);
    assert(e.stash.subrange(0, e.stash.len() as int) =~= e.stash);
    assert(e.after_refill().boxes =~= e.boxes);
}

/// A card whose texts are already in the stash or a box is turned away: the
/// deck stays as it was, and an import of it reports it as a duplicate.
pub proof fn lemma_duplicate_rejected(d: DeckView, front: String, back: String)
    requires
        d.holds_content(front@, back@),
    ensures
        d.after_add(front, back) == d,
        d.after_import(seq![(front, back)]) == d,
        d.after_import(seq![(front, back)]).stash.len() == d.stash.len(),
        d.import_duplicates(seq![(front, back)]) == seq![(front, back)],
{
    let recs = seq![(front, back)];
    assert(recs.drop_last() =~= Seq::<(String, String)>::empty());
    assert(Seq::<(String, String)>::empty().push((front, back)) =~= recs);
    assert(d.after_import(recs.drop_last()) == d);
    assert(recs.last() == (front, back));
    assert(d.import_duplicates(recs.drop_last()) =~= Seq::<(String, String)>::empty());
}

/// Replacing one box changes the cards of all boxes by the cards of that box.
pub proof fn lemma_boxed_cards_update(boxes: Seq<BoxView>, k: int, v: BoxView)
    requires
        0 <= k < boxes.len(),
    ensures
        boxed_cards(boxes.update(k, v)).add(boxes[k].cards.to_multiset())
            == boxed_cards(boxes).add(v.cards.to_multiset()),
    decreases boxes.len(),
{
    let u = boxes.update(k, v);
    assert(boxed_cards(u) == boxed_cards(u.drop_last()).add(u.last().cards.to_multiset()));
    assert(boxed_cards(boxes) == boxed_cards(boxes.drop_last()).add(boxes.last().cards.to_multiset()));
    if k == boxes.len() - 1 {
        assert(u.drop_last() =~= boxes.drop_last());
        assert(u.last() == v);
    } else {
        lemma_boxed_cards_update(boxes.drop_last(), k, v);
        assert(u.drop_last() =~= boxes.drop_last().update(k, v));
        assert(u.last() == boxes.last());
        assert(boxes.drop_last()[k] == boxes[k]);
    }
    let lhs = boxed_cards(u).add(boxes[k].cards.to_multiset());
    let rhs = boxed_cards(boxes).add(v.cards.to_multiset());
    assert forall|c: Card| #[trigger] lhs.count(c) == rhs.count(c) by {
        if k < boxes.len() - 1 {
            let b = boxes.drop_last();
            assert(boxed_cards(b.update(k, v)).add(b[k].cards.to_multiset()).count(c)
                == boxed_cards(b).add(v.cards.to_multiset()).count(c));
        }
    }
    assert(lhs =~= rhs);
}

/// A review moves one card and neither creates nor loses any.
pub proof fn lemma_process_keeps_cards(d: DeckView, i: int, did_know: bool)
    requires
        d.wf(),
        0 <= i < d.boxes.len(),
        d.boxes[i].cards.len() > 0,
    ensures
        d.after_process(i, did_know).all_cards() == d.all_cards(),
{
    broadcast use vstd::seq_lib::group_to_multiset_ensures;

    let card = d.boxes[i].cards[0];
    let from = BoxView { cards: d.boxes[i].cards.drop_first(), capacity: d.boxes[i].capacity };
    let rest = d.boxes.update(i, from);
    assert(d.boxes[i].cards.drop_first() =~= d.boxes[i].cards.remove(0));
    lemma_boxed_cards_update(d.boxes, i, from);
    assert(d.boxes[i].cards.to_multiset() =~= from.cards.to_multiset().insert(card));
    match d.destination(i, did_know) {
        Some(t) => {
            let to = BoxView { cards: rest[t].cards.push(card), capacity: rest[t].capacity };
            lemma_boxed_cards_update(rest, t, to);
            assert(to.cards.to_multiset() =~= rest[t].cards.to_multiset().insert(card));
            let e = d.after_process(i, did_know);
            assert(e.boxes == rest.update(t, to));
            assert forall|c: Card| #[trigger] e.all_cards().count(c) == d.all_cards().count(c) by {
                assert(boxed_cards(rest).add(d.boxes[i].cards.to_multiset()).count(c)
                    == boxed_cards(d.boxes).add(from.cards.to_multiset()).count(c));
                assert(boxed_cards(rest.update(t, to)).add(rest[t].cards.to_multiset()).count(c)
                    == boxed_cards(rest).add(to.cards.to_multiset()).count(c));
            }
            assert(e.all_cards() =~= d.all_cards());
        },
        None => {
            let e = d.after_process(i, did_know);
            assert(e.boxes == rest);
            assert(e.done.to_multiset() =~= d.done.to_multiset().insert(card));
            assert forall|c: Card| #[trigger] e.all_cards().count(c) == d.all_cards().count(c) by {
                assert(boxed_cards(rest).add(d.boxes[i].cards.to_multiset()).count(c)
                    == boxed_cards(d.boxes).add(from.cards.to_multiset()).count(c));
            }
            assert(e.all_cards() =~= d.all_cards());
        },
    }
}

/// Taking the last `k` cards off a sequence keeps, between what is left and
/// what was taken, every card.
pub proof fn lemma_taken_from_back_cards(s: Seq<Card>, k: nat)
    requires
        k <= s.len(),
    ensures
        s.subrange(0, s.len() - k).to_multiset().add(taken_from_back(s, k).to_multiset()) == s.to_multiset(),
    decreases k,
{
    broadcast use vstd::seq_lib::group_to_multiset_ensures;

    if k == 0 {
        assert(s.subrange(0, s.len() as int) =~= s);
        assert(taken_from_back(s, 0) =~= Seq::<Card>::empty());
        assert(s.subrange(0, s.len() - k).to_multiset().add(taken_from_back(s, k).to_multiset()) =~= s.to_multiset());
    } else {
        let j = (k - 1) as nat;
        lemma_taken_from_back_cards(s, j);
        let x = s[s.len() - k];
        assert(s.subrange(0, s.len() - j) =~= s.subrange(0, s.len() - k).push(x));
        assert(taken_from_back(s, k) =~= taken_from_back(s, j).push(x));
        assert(s.subrange(0, s.len() - k).to_multiset().add(taken_from_back(s, k).to_multiset()) =~= s.to_multiset());
    }
}

/// A refill moves cards from the stash to the first box and neither creates
/// nor loses any.
pub proof fn lemma_refill_keeps_cards(d: DeckView)
    requires
        d.wf(),
    ensures
        d.after_refill().all_cards() == d.all_cards(),
{
    broadcast use vstd::seq_lib::group_to_multiset_ensures;

    let k = d.refill_count();
    let first = d.boxes[0];
    let to = BoxView { cards: first.cards + taken_from_back(d.stash, k), capacity: first.capacity };
    lemma_boxed_cards_update(d.boxes, 0, to);
    lemma_taken_from_back_cards(d.stash, k);
    vstd::seq_lib::lemma_multiset_commutative(first.cards, taken_from_back(d.stash, k));
    let e = d.after_refill();
    assert(e.boxes == d.boxes.update(0, to));
    assert forall|c: Card| #[trigger] e.all_cards().count(c) == d.all_cards().count(c) by {
        assert(boxed_cards(d.boxes.update(0, to)).add(first.cards.to_multiset()).count(c)
            == boxed_cards(d.boxes).add(to.cards.to_multiset()).count(c));
        assert(d.stash.subrange(0, d.stash.len() - k).to_multiset().add(taken_from_back(d.stash, k).to_multiset()).count(c)
            == d.stash.to_multiset().count(c));
    }
    assert(e.all_cards() =~= d.all_cards());
}

/// In a deck with sound ids, a card that was known in the last box is in no
/// box afterwards, so no box selected for review can show it again; it is
/// in the done list.
pub proof fn lemma_graduated_leaves_boxes(d: DeckView)
    requires
        d.wf(),
        d.boxes[d.boxes.len() - 1].cards.len() > 0,
        d.ids_sound(),
    ensures
        ({
            let card = d.boxes[d.boxes.len() - 1].cards[0];
            let e = d.after_process(d.boxes.len() - 1, true);
            &&& boxed_cards(e.boxes).count(card) == 0
            &&& e.done.contains(card)
        }),
{
    broadcast use vstd::seq_lib::group_to_multiset_ensures;

    let last = d.boxes.len() - 1;
    let card = d.boxes[last].cards[0];
    let from = BoxView { cards: d.boxes[last].cards.drop_first(), capacity: d.boxes[last].capacity };
    assert(d.boxes[last].cards.drop_first() =~= d.boxes[last].cards.remove(0));
    lemma_boxed_cards_update(d.boxes, last, from);
    lemma_boxed_cards_contains(d.boxes, last, 0);
    assert(d.all_cards().count(card) <= 1);
    assert(boxed_cards(d.boxes).count(card) == 1);
    assert(d.boxes[last].cards.to_multiset() =~= from.cards.to_multiset().insert(card));
    let e = d.after_process(last, true);
    assert(e.boxes == d.boxes.update(last, from));
    assert(boxed_cards(e.boxes).add(d.boxes[last].cards.to_multiset()).count(card)
        == boxed_cards(d.boxes).add(from.cards.to_multiset()).count(card));
    assert(e.done[e.done.len() - 1] == card);
}

/// A card of a box is among the cards of all boxes.
pub proof fn lemma_boxed_cards_contains(boxes: Seq<BoxView>, k: int, i: int)
    requires
        0 <= k < boxes.len(),
        0 <= i < boxes[k].cards.len(),
    ensures
        boxed_cards(boxes).count(boxes[k].cards[i]) > 0,
    decreases boxes.len(),
{
    broadcast use vstd::seq_lib::group_to_multiset_ensures;

    assert(boxes[k].cards.contains(boxes[k].cards[i]));
    if k < boxes.len() - 1 {
        lemma_boxed_cards_contains(boxes.drop_last(), k, i);
    }
}

/// Boxes that hold no card give no card.
pub proof fn lemma_boxed_cards_empty(boxes: Seq<BoxView>)
    requires
        forall|k: int| 0 <= k < boxes.len() ==> (#[trigger] boxes[k]).cards.len() == 0,
    ensures
        boxed_cards(boxes) == Multiset::<Card>::empty(),
    decreases boxes.len(),
{
    broadcast use vstd::seq_lib::group_to_multiset_ensures;

    if boxes.len() > 0 {
        lemma_boxed_cards_empty(boxes.drop_last());
        assert(boxes.last().cards.to_multiset().len() == 0);
        assert(boxed_cards(boxes) =~= Multiset::<Card>::empty());
    }
}

/// A card offered to the stash is either turned away, leaving every card as
/// it was, or joins the cards of the deck with an id that no card had; sound
/// ids stay sound.
pub proof fn lemma_add_cards(d: DeckView, front: String, back: String)
    ensures
        d.holds_content(front@, back@) ==> d.after_add(front, back).all_cards() == d.all_cards(),
        !d.holds_content(front@, back@) ==> d.after_add(front, back).all_cards() == d.all_cards().insert(
            Card { id: d.next_id as u64, front, back },
        ),
        d.ids_sound() && d.next_id < u64::MAX ==> d.after_add(front, back).ids_sound(),
{
    broadcast use vstd::seq_lib::group_to_multiset_ensures;

    let e = d.after_add(front, back);
    let c0 = Card { id: d.next_id as u64, front, back };
    if !d.holds_content(front@, back@) {
        assert(e.all_cards() =~= d.all_cards().insert(c0));
        if d.ids_sound() && d.next_id < u64::MAX {
            assert(d.all_cards().count(c0) == 0);
            assert forall|c: Card| #[trigger] e.all_cards().count(c) > 0 implies c.id < e.next_id by {
                if c != c0 {
                    assert(d.all_cards().count(c) > 0);
                }
            }
            assert forall|c1: Card, c2: Card|
                #[trigger] e.all_cards().count(c1) > 0 && #[trigger] e.all_cards().count(c2) > 0 && c1.id == c2.id
                implies c1 == c2 by {
                if c1 != c0 {
                    assert(d.all_cards().count(c1) > 0);
                }
                if c2 != c0 {
                    assert(d.all_cards().count(c2) > 0);
                }
            }
        }
    }
}

/// An import keeps sound ids sound.
pub proof fn lemma_import_ids_sound(d: DeckView, records: Seq<(String, String)>)
    requires
        d.ids_sound(),
        d.next_id + records.len() <= u64::MAX,
    ensures
        d.after_import(records).ids_sound(),
        d.after_import(records).next_id <= d.next_id + records.len(),
    decreases records.len(),
{
    if records.len() > 0 {
        let rest = records.drop_last();
        lemma_import_ids_sound(d, rest);
        lemma_add_cards(d.after_import(rest), records.last().0, records.last().1);
    }
}

/// The sequence of the cards of all boxes holds the same cards.
pub proof fn lemma_flat_cards(boxes: Seq<BoxView>)
    ensures
        flat_cards(boxes).to_multiset() == boxed_cards(boxes),
    decreases boxes.len(),
{
    broadcast use vstd::seq_lib::group_to_multiset_ensures;

    if boxes.len() == 0 {
        assert(flat_cards(boxes).to_multiset() =~= boxed_cards(boxes));
    } else {
        lemma_flat_cards(boxes.drop_last());
        vstd::seq_lib::lemma_multiset_commutative(flat_cards(boxes.drop_last()), boxes.last().cards);
    }
}

/// Ids below the next one and pairwise distinct along the sequence of all
/// cards make sound ids.
pub proof fn lemma_distinct_ids_sound(d: DeckView)
    requires
        d.ids_distinct(),
    ensures
        d.ids_sound(),
{
    broadcast use vstd::seq_lib::group_to_multiset_ensures;

    let s = d.card_seq();
    lemma_flat_cards(d.boxes);
    vstd::seq_lib::lemma_multiset_commutative(d.stash, flat_cards(d.boxes));
    vstd::seq_lib::lemma_multiset_commutative(d.stash + flat_cards(d.boxes), d.done);
    assert(s.to_multiset() =~= d.all_cards());
    assert(s.no_duplicates()) by {
        assert forall|i: int, j: int| 0 <= i < s.len() && 0 <= j < s.len() && i != j implies s[i] != s[j] by {
            if i < j {
                assert(s[i].id != s[j].id);
            } else {
                assert(s[j].id != s[i].id);
            }
        }
    }
    s.lemma_multiset_has_no_duplicates();
    assert forall|c: Card| #[trigger] d.all_cards().count(c) > 0 implies c.id < d.next_id by {
        assert(s.contains(c));
        let i = choose|i: int| 0 <= i < s.len() && s[i] == c;
        assert(s[i].id < d.next_id);
    }
    assert forall|c: Card| #[trigger] d.all_cards().count(c) <= 1 by {
        if d.all_cards().count(c) > 0 {
            assert(s.to_multiset().contains(c));
        }
    }
    assert forall|c1: Card, c2: Card|
        #[trigger] d.all_cards().count(c1) > 0 && #[trigger] d.all_cards().count(c2) > 0 && c1.id == c2.id
        implies c1 == c2 by {
        assert(s.contains(c1));
        assert(s.contains(c2));
        let i = choose|i: int| 0 <= i < s.len() && s[i] == c1;
        let j = choose|j: int| 0 <= j < s.len() && s[j] == c2;
        if i < j {
            assert(s[i].id != s[j].id);
        } else if j < i {
            assert(s[j].id != s[i].id);
        }
    }
}

} // verus!
