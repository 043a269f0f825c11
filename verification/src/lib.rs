//! Similarity matching between self-reported headache profiles.
//!
//! A [`store::ProfileStore`] keeps every registered profile in registration
//! order. Asked for the matches of an id, it takes the oldest profile with
//! that id as the target and every profile with another id as a candidate;
//! [`matching::find_matches`] scores each candidate for the target
//! ([`scoring`]) and returns the best of them, highest score first
//! ([`ranking`]).
//!
//! Every function carries a contract over the mathematical model of its
//! arguments, and the laws that relate the functions to one another are
//! proved beside them: what a score is and when it is the same in both
//! directions, that a list of scores has exactly one ranking, that nobody
//! is matched with a profile of their own id, and that the matches follow
//! the order of registration among equal scores.

pub mod matching;
pub mod profile;
pub mod ranking;
pub mod scoring;
pub mod store;
