//! Command-line options, as plain data.
//!
//! Argument parsing itself is I/O plumbing and lives outside the library;
//! this type carries the parsed flags, and the style selection rule is
//! verified here.

use crate::Style;
use vstd::prelude::*;

verus! {

/// The command surface: flags and file arguments.
#[derive(Debug, Clone)]
pub struct Cli {
    /// Actually perform renames (the default is a dry run).
    pub execute: bool,
    /// Print each rename operation.
    pub verbose: bool,
    /// Allow overwriting existing files (the default is no-clobber).
    pub clobber: bool,
    /// Prompt before each rename.
    pub interactive: bool,
    /// Recurse into directories.
    pub recursive: bool,
    /// Use snake_case instead of kebab-case.
    pub snake: bool,
    /// Use camelCase instead of kebab-case.
    pub camel: bool,
    /// Use PascalCase instead of kebab-case.
    pub pascal: bool,
    /// Preserve Unicode characters, only normalizing separators.
    pub keep_unicode: bool,
    /// Pipe mode: read text lines, write slugified lines.
    pub pipe: bool,
    /// Treat piped input as raw text rather than filenames.
    pub raw: bool,
    /// Files and directories to rename.
    pub files: Vec<String>,
}

impl Cli {
    /// The style selected by the flags; the styles are mutually exclusive
    /// and kebab-case is the default.
    pub fn style(&self) -> (r: Style)
        ensures
            self.snake ==> r == Style::Snake,
            !self.snake && self.camel ==> r == Style::Camel,
            !self.snake && !self.camel && self.pascal ==> r == Style::Pascal,
            !self.snake && !self.camel && !self.pascal ==> r == Style::Kebab,
    {
        if self.snake {
            Style::Snake
        } else if self.camel {
            Style::Camel
        } else if self.pascal {
            Style::Pascal
        } else {
            Style::Kebab
        }
    }
}

} // verus!
