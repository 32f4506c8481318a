//! Converts simple shell scripts into Windows batch scripts, line by line.
//!
//! The conversion knows a handful of everyday commands (`export`, `unset`,
//! `cp`, `mv`, `rm`, `touch`, `set -x`), comments, and variable references.
//! It is no shell: a line that it does not recognise is kept as it stands,
//! and a line may dictate its own batch text behind the marker
//! `# shell2batch: `.
//!
//! What `convert` returns is stated by `script::spec_convert`, a function of
//! the script's characters alone.

use crate::lines::spec_split_lines;
use crate::script::{
    convert_chars, echo_block_len, echo_count, passes_through, spec_convert, spec_convert_lines,
};
use crate::text::{chars_of, string_of};
use vstd::prelude::*;

pub mod lines;
pub mod rules;
pub mod script;
pub mod text;
pub mod vars;

verus! {

/// Converts the given shell script and returns the text of the batch script.
///
/// The lines of the batch script are the converted lines of the shell
/// script: one for each line that is not `set -x`, in the same order, behind
/// `@echo on` and an empty line where any line is `set -x`. A script of
/// blank lines and of lines that no rule matches comes back unchanged.
pub fn convert(script: &str) -> (batch: String)
    ensures
        batch@ == spec_convert(script@),
        spec_split_lines(batch@) == spec_convert_lines(spec_split_lines(script@)),
        spec_split_lines(batch@).len() == spec_split_lines(script@).len() - echo_count(
            spec_split_lines(script@),
        ) + echo_block_len(spec_split_lines(script@)),
        passes_through(spec_split_lines(script@)) ==> batch@ == script@,
{
    let shell = chars_of(script);
    let out = convert_chars(shell.as_slice());
    string_of(out.as_slice())
}

} // verus!
