//! Cosmetic filtering for an ad-blocking engine.
//!
//! * `filters::cosmetic` parses a rule line (`scope##selector`,
//!   `scope#@#selector`, `scope##+js(...)`) into a classified rule.
//! * `filters::hostnames` reads the scope of a rule and computes the hashes
//!   under which the hostname of a request is looked up.
//! * `cosmetic_filter_cache` indexes rules and writes the stylesheets for a
//!   page: by class and id, by hostname, and for every page.
//! * `scriptlets` keeps the catalog of scriptlet templates and fills a
//!   template in with the arguments of a rule.
//! * `utils` and `text` hold the hash and the character-level helpers that
//!   the others share.
//!
//! Every function states what it returns over the characters of its
//! arguments, and is proved to do so.

pub mod cosmetic_filter_cache;
pub mod filters;
pub mod scriptlets;
pub mod text;
pub mod utils;
