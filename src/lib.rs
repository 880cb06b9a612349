//! Leitner-box scheduling of flashcards: bounded review boxes, promotion on
//! recall, demotion to the first box on failure, and a stash of new cards that
//! is moved into the first box on request.

pub mod card;
pub mod queue;
pub mod deck;
pub mod session;
pub mod lemmas;
