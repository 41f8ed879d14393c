//! The preprocessor that regenerates the index before a book is built.

use crate::error::SummaryError;
use crate::gate::{gen_summary, normalized_root, regeneration_of, summary_content, Regeneration};
use crate::text::{chars_of, same_chars};
use crate::walk::{malformed_within, FsEntry};
use vstd::prelude::*;

verus! {

/// The preprocessor.
pub struct AutoGenSummary;

impl AutoGenSummary {
    /// A new preprocessor.
    pub fn new() -> AutoGenSummary {
        AutoGenSummary
    }

    /// The name under which the preprocessor is configured.
    pub fn name(&self) -> (name: &'static str)
        ensures
            name@ == "auto-gen-summary-preprocessor"@,
    {
        "auto-gen-summary-preprocessor"
    }

    /// Every renderer is supported but the one named `not-supported`.
    pub fn supports_renderer(&self, renderer: &str) -> (supported: bool)
        ensures
            supported == (renderer@ != "not-supported"@),
    {
        !same_chars(&chars_of(renderer), &chars_of("not-supported"))
    }

    /// One run of the preprocessor: fails at once if `blow_up` is set, else
    /// generates the index for the listing `tree` of `source_dir`.
    pub fn run(&self, blow_up: bool, source_dir: &String, tree: &FsEntry, old_digest: &String) -> (res:
        Result<Regeneration, SummaryError>)
        ensures
            match res {
                Ok(outcome) => !blow_up && tree@.is_dir && !malformed_within(tree@) && outcome@
                    == regeneration_of(
                    normalized_root(source_dir@),
                    summary_content(source_dir@, tree@),
                    old_digest@,
                ),
                Err(e) => if blow_up {
                    e == SummaryError::InjectedFailure
                } else if tree@.is_dir {
                    e == SummaryError::MalformedEntry && malformed_within(tree@)
                } else {
                    e == SummaryError::Io
                },
            },
    {
        if blow_up {
            return Err(SummaryError::InjectedFailure);
        }
        gen_summary(source_dir, tree, old_digest)
    }
}

} // verus!
