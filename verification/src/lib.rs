//! Filename-aware slug generation with collision-safe rename planning.
//!
//! The library turns messy filenames into clean, shell-safe slugs while
//! preserving extensions, dotfiles, compound extensions such as `.tar.gz`,
//! and embedded version numbers such as `1.2.3`.

use vstd::prelude::*;

pub mod chars;
pub mod cli;
pub mod laws;
pub mod resolve;
pub mod slug;
pub mod split;
pub mod stability;
pub mod truncate;
pub mod unicode;
pub mod version;
pub mod words;

pub use cli::Cli;
pub use resolve::{candidate_name, is_valid_slug, plan_rename, safe_target, RenamePlan,
    RenameResult, Resolution};
pub use slug::{slugify, slugify_string};
pub use split::split_extension;
pub use truncate::truncate_base;
pub use version::{preserve_version_dots, restore_version_dots};

verus! {

/// Reserved control character standing in for a dot inside a detected
/// version number while words are being segmented.
pub const VERSION_DOT: char = '\x01';

/// Largest number of bytes a generated filename may occupy.
pub const MAX_FILENAME_BYTES: usize = 255;

/// Word separator style for slugified filenames.
#[derive(Debug, Clone, Copy, PartialEq, Eq, Hash, Structural)]
pub enum Style {
    /// `my-cool-file.txt`
    Kebab,
    /// `my_cool_file.txt`
    Snake,
    /// `myCoolFile.txt`
    Camel,
    /// `MyCoolFile.txt`
    Pascal,
}

impl Default for Style {
    /// The default style is kebab-case.
    fn default() -> (r: Self)
        ensures
            r == Style::Kebab,
    {
        Style::Kebab
    }
}

/// Options controlling the slug pipeline.
#[derive(Debug, Clone, PartialEq, Eq, Structural)]
pub struct SlugifyOptions {
    /// Word separator style.
    pub style: Style,
    /// When `true`, skip ASCII transliteration and preserve Unicode
    /// characters.
    pub keep_unicode: bool,
}

impl Default for SlugifyOptions {
    /// The default is kebab-case with ASCII transliteration.
    fn default() -> (r: Self)
        ensures
            r.style == Style::Kebab,
            !r.keep_unicode,
    {
        SlugifyOptions { style: Style::Kebab, keep_unicode: false }
    }
}

} // verus!
