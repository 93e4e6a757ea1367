//! A verified toolkit of small text utilities behind a routed single-page
//! shell: a base64 codec, message digests, numeric base conversion,
//! character counting, a regex generator, a novelty text generator, and
//! the route/session logic that selects the active tool.

pub mod base64;
pub mod base_conv;
pub mod char_count;
pub mod digest;
pub mod regex_gen;
pub mod router;
pub mod strutil;
pub mod sudden_death;
