//! A panel-chat addressee tokenizer.
//!
//! A line of user input may begin with a run of addressing tokens: panelist
//! names, 1-based panelist numbers, or the wildcard keyword `all`. This
//! library scans such a line byte by byte against an injected roster of
//! panelists and reports which panelists were addressed and where the
//! free-text question begins. Name and number lookups are pure functions
//! over the roster; the only outside effect is the pair of random picks
//! drawn when a line opens with an unknown word and nobody has been
//! addressed yet.

pub mod panelist;
pub mod tokenizer;
