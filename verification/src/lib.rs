//! A tiny terminal-boot-animation engine: a scanner for an inline markup
//! language (characters, instant strings, color changes, pauses, newlines),
//! a color resolver, a bottom-anchored frame compositor over pre-rasterized
//! glyphs, and the animation state machine that replays the token stream
//! frame by frame.

pub mod anim;
pub mod chars;
pub mod color;
pub mod render;
pub mod scan;
pub mod token;

pub use anim::Frame;

pub use color::parse_color;
pub use scan::parse_bios_string;
pub use scan::parse_str;
pub use scan::parse_usize;
pub use token::BiOSToken;
pub use token::Rgba;
pub use token::ScanError;
