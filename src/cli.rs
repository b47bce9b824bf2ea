use vstd::prelude::*;
use crate::render::ToneType;

verus! {

/// What the program is started with.
pub struct Args {
    /// How pinyin is shown.
    pub pinyin: ToneType,
    /// Path of the key-map file.
    pub keymap: String,
    /// Path of the text file.
    pub text: String,
}

} // verus!
