//! The espeak-ng engine: the command line it is invoked with.
//!
//! Spawning the process is I/O and lives with the caller; this module
//! fixes the program name and the exact argument vector.

use vstd::prelude::*;

verus! {

/// The espeak-ng command-line synthesizer.
pub struct EspeakNg;

impl EspeakNg {
    /// A fresh handle on the engine.
    pub fn new() -> (r: EspeakNg) {
        EspeakNg
    }

    /// The program to invoke.
    pub fn program(&self) -> (r: &'static str)
        ensures
            r@ == "espeak-ng"@,
    {
        "espeak-ng"
    }

    /// The argument vector for one synthesis call: the text, then the
    /// write-to-file flag, then the output path.
    pub fn command_args<'a>(&self, text: &'a str, output_path: &'a str) -> (r: Vec<&'a str>)
        ensures
            r@.len() == 3,
            r@[0]@ == text@,
            r@[1]@ == "-w"@,
            r@[2]@ == output_path@,
    {
        let mut args: Vec<&'a str> = Vec::new();
        args.push(text);
        args.push("-w");
        args.push(output_path);
        args
    }
}

} // verus!
