//! Shared building blocks of the Leit apps: Supabase auth helpers (request
//! shaping, JWT claim extraction) and a Leitner-box spaced repetition deck.

pub mod auth;
pub mod base64;
pub mod clock;
pub mod deck;
pub mod item;
pub mod json;
pub mod jwt;
pub mod random;
pub mod schedule;
pub mod text;
