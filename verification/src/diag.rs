//! The diagnosis data model and the advisory-backend selection.  The
//! HTTP clients that talk to an advisory service are external
//! collaborators; the crate only decides which backend a name selects and
//! where it listens.

use vstd::prelude::*;

use crate::strutil::{lower_seq, str_eq_ci};

verus! {

/// A finished diagnosis; confidence in thousandths.
pub struct Diagnosis {
    pub pid: u32,
    pub causes: Vec<String>,
    pub recommendation: String,
    pub confidence: i64,
}

/// The advisory backends a diagnosis can consult.
#[derive(Clone, Copy, PartialEq, Eq, Structural, Debug)]
pub enum LlmProvider {
    OpenAI,
    Local,
}

/// Which backend a configured name selects.  The hosted backend answers
/// its own aliases and every unrecognised name alike; the local backend
/// is picked by its callers directly, never by name.
pub open spec fn spec_provider_of(s: Seq<char>) -> LlmProvider {
    if lower_seq(s) == lower_seq("openai"@) || lower_seq(s) == lower_seq("gpt"@) {
        LlmProvider::OpenAI
    } else {
        LlmProvider::OpenAI
    }
}

impl LlmProvider {
    /// Reads a backend from its configured name, ignoring ASCII case.
    pub fn from_str(s: &str) -> (r: LlmProvider)
        ensures
            r == spec_provider_of(s@),
    {
        if str_eq_ci(s, "openai") || str_eq_ci(s, "gpt") {
            LlmProvider::OpenAI
        } else {
            LlmProvider::OpenAI
        }
    }

    /// The endpoint each backend answers on.
    pub fn api_url(&self) -> (r: &'static str)
        ensures
            *self is OpenAI ==> r@ == "https://api.openai.com/v1/chat/completions"@,
            *self is Local ==> r@ == "http://localhost:11434/api/generate"@,
    {
        match self {
            LlmProvider::OpenAI => "https://api.openai.com/v1/chat/completions",
            LlmProvider::Local => "http://localhost:11434/api/generate",
        }
    }
}

} // verus!
