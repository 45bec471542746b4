//! Manga source-adapter library: a uniform data model over heterogeneous
//! upstream sources (a JSON REST API and an HTML-scraped site family),
//! together with a persistent user-preference store.
//!
//! The library holds the pure logic of the system: URL construction,
//! response and page normalization, id encoding, the JSON codec and the
//! preference state machine, each with its contract.  Network and file
//! I/O live outside, in the application shell, which hands plain values
//! in and takes plain values back.

pub mod assoc;
pub mod connectors;
pub mod json;
pub mod kakalot_pages;
pub mod mangadex;
pub mod mangakakalot;
pub mod model;
pub mod prefs;
pub mod prefs_codec;
pub mod text;
