//! Engine of a terminal trainer for two-key (initial / final) pinyin input:
//! syllable segmentation, passage layout, and the keystroke state machine.
pub mod pin;
pub mod input;
pub mod render;
pub mod text;
pub mod cli;
