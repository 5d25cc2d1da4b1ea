//! A verified core for a "top stories" news listing.
//!
//! The library holds the decision logic of the story-fetching pipeline:
//! clamping the requested count against the ranking list, planning the
//! per-story detail fetches, applying the field-defaulting rules when a
//! detail payload is decoded, and reassembling concurrently arriving
//! results into ranking order while dropping individual failures.
//! The HTTP transport and the browser UI live outside the library and
//! exchange plain values with it.

pub mod fetch;
pub mod story;
