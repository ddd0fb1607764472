//! Named text-to-speech capabilities.
//!
//! The alignment core never runs a synthesizer itself; it only fixes the
//! interface an engine must offer and decides which engine names are
//! supported, so that unsupported names fail before any process could be
//! spawned.

use vstd::prelude::*;

pub mod espeak_ng;

verus! {

/// A text-to-speech engine: synthesizes `text` into the sound file at
/// `output_path`.
pub trait TTSEngine {
    fn speak_to_file(&self, text: &str, output_path: &str) -> Result<(), String>;
}

/// Whether `name` names a supported engine.  Exactly one engine is
/// supported.
pub fn is_supported_engine(name: &str) -> (r: bool)
    ensures
        r <==> name@ == "espeak-ng"@,
{
    let expected = "espeak-ng";
    proof {
        reveal_strlit("espeak-ng");
    }
    if name.unicode_len() != 9 {
        return false;
    }
    let mut i: usize = 0;
    while i < 9
        invariant
            0 <= i <= 9,
            name@.len() == 9,
            expected@ == "espeak-ng"@,
            expected@.len() == 9,
            forall|p: int| 0 <= p < i ==> name@[p] == expected@[p],
        decreases 9 - i,
    {
        if name.get_char(i) != expected.get_char(i) {
            return false;
        }
        i += 1;
    }
    proof {
        assert(name@ =~= expected@);
    }
    true
}

} // verus!
