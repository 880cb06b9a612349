use vstd::prelude::*;

use crate::deck::Deck;

verus! {

/// What the learner sees of the card under review: its front only, or both
/// sides.
#[derive(PartialEq, Eq, Structural, Clone, Copy, Debug)]
pub enum CurrentScreen {
    Asking,
    Checking,
}

/// A learning session on one deck: the box under review and what is shown of
/// its front card.
pub struct App {
    pub file_name: String,
    pub deck: Deck,
    pub current_queue: Option<usize>,
    pub current_screen: CurrentScreen,
}

impl App {
    /// The deck is sound and the box under review is the one it selects.
    pub open spec fn wf(&self) -> bool {
        &&& self.deck@.wf()
        &&& self.deck@.ids_sound()
        &&& self.deck@.selects(self.current_queue)
    }

    pub fn new(file_name: String, deck: Deck) -> (r: App)
        requires
            deck@.wf(),
            deck@.ids_sound(),
        ensures
            r.wf(),
            r.file_name == file_name,
            r.deck@ == deck@,
            r.current_screen == CurrentScreen::Asking,
    {
        let current_queue = deck.get_next_queue();
        App { file_name, deck, current_queue, current_screen: CurrentScreen::Asking }
    }

    /// Records the judgement on the front card of the box under review, if
    /// there is one, and selects the next box.
    pub fn process(&mut self, did_know: bool)
        requires
            old(self).wf(),
        ensures
            final(self).wf(),
            match old(self).current_queue {
                Some(i) => final(self).deck@ == old(self).deck@.after_process(i as int, did_know),
                None => final(self).deck@ == old(self).deck@,
            },
            final(self).file_name == old(self).file_name,
            final(self).current_screen == old(self).current_screen,
    {
        if let Some(queue) = self.current_queue {
            self.deck.process(queue, did_know);
            self.current_queue = self.deck.get_next_queue();
        }
    }

    /// Refills the first box from the stash and selects the next box.
    pub fn refill(&mut self)
        requires
            old(self).wf(),
        ensures
            final(self).wf(),
            final(self).deck@ == old(self).deck@.after_refill(),
            final(self).file_name == old(self).file_name,
            final(self).current_screen == old(self).current_screen,
    {
        self.deck.refill();
        self.current_queue = self.deck.get_next_queue();
    }

    /// Reacts to one key press (`None` for a key that is no character) and
    /// tells whether the session ends. `q` always ends it. While a box is
    /// under review, any other key turns the card over; once turned, `y` and
    /// `n` record that it was known or not, and any key shows the next front.
    /// With no box under review, `r` refills the first box.
    pub fn handle_key(&mut self, key: Option<char>) -> (quit: bool)
        requires
            old(self).wf(),
        ensures
            final(self).wf(),
            quit == (key == Some('q')),
            final(self).file_name == old(self).file_name,
            quit ==> final(self).deck@ == old(self).deck@ && final(self).current_queue == old(self).current_queue
                && final(self).current_screen == old(self).current_screen,
            !quit ==> match old(self).current_queue {
                Some(i) => match old(self).current_screen {
                    CurrentScreen::Asking => {
                        &&& final(self).deck@ == old(self).deck@
                        &&& final(self).current_queue == old(self).current_queue
                        &&& final(self).current_screen == CurrentScreen::Checking
                    },
                    CurrentScreen::Checking => {
                        &&& final(self).current_screen == CurrentScreen::Asking
                        &&& key == Some('y') ==> final(self).deck@ == old(self).deck@.after_process(i as int, true)
                        &&& key == Some('n') ==> final(self).deck@ == old(self).deck@.after_process(i as int, false)
                        &&& key != Some('y') && key != Some('n') ==> final(self).deck@ == old(self).deck@
                            && final(self).current_queue == old(self).current_queue
                    },
                },
                None => {
                    &&& final(self).current_screen == old(self).current_screen
                    &&& key == Some('r') ==> final(self).deck@ == old(self).deck@.after_refill()
                    &&& key != Some('r') ==> final(self).deck@ == old(self).deck@
                        && final(self).current_queue == old(self).current_queue
                },
            },
    {
        if key == Some('q') {
            return true;
        }
        match self.current_queue {
            Some(_) => match self.current_screen {
                CurrentScreen::Asking => {
                    self.current_screen = CurrentScreen::Checking;
                },
                CurrentScreen::Checking => {
                    if key == Some('y') {
                        self.process(true);
                    } else if key == Some('n') {
                        self.process(false);
                    }
                    self.current_screen = CurrentScreen::Asking;
                },
            },
            None => {
                if key == Some('r') {
                    self.refill();
                }
            },
        }
        false
    }
}

} // verus!
