//! Top-25 word frequency, computed under several execution models.
//!
//! The core defines what the computation is: `text` turns a text into its
//! token stream, `stop` holds the exclusion set, `freq` counts tokens
//! into frequency tables that merge by per-key summation, `rank` orders
//! entries by count descending with an ascending lexicographic tie-break
//! and truncates to 25, and `top` ties them into one call and states that
//! the result is determined by the inputs alone.
//!
//! The remaining modules express the same computation under different
//! structural disciplines, each proved to produce that one result: a
//! message-passing actor pipeline (`actors`), a synchronous letterbox
//! (`letterbox`), a publish-subscribe bulletin board (`events`), shared
//! dataspaces drained by workers (`dataspace`), a map-reduce pipeline
//! over line chunks (`mapreduce`), and the function-composition styles
//! (`pipeline`, `theone`, `quarantine`, `streams`, `defensive`).

pub mod actors;
pub mod dataspace;
pub mod defensive;
pub mod events;
pub mod freq;
pub mod letterbox;
pub mod mapreduce;
pub mod pipeline;
pub mod quarantine;
pub mod rank;
pub mod stop;
pub mod streams;
pub mod text;
pub mod theone;
pub mod top;

pub use text::tokenize;
pub use top::top_words;
