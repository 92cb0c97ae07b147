//! The generation capability the game core depends on, and the scripted
//! stand-in used for deterministic runs.

use vstd::prelude::*;
use crate::errors::SimError;

verus! {

/// A text-generation capability: given a prompt and an ordered memory,
/// produce text or fail with `GenerationFailure`.
///
/// The core is polymorphic over this capability and never depends on a
/// particular implementation, so nothing is promised about the text: the
/// phases are verified to behave correctly whatever a `generate` call
/// returns.
pub trait LLM {
    fn generate(&mut self, prompt: &str, context: &Vec<String>) -> Result<String, SimError>;
}

/// A scripted capability: hands out pre-loaded responses strictly in
/// first-in-first-out order and fails once they are exhausted.
pub struct MockLLMClient {
    pub responses: Vec<String>,
    pub current_response: usize,
}

impl MockLLMClient {
    /// A scripted capability with no responses loaded.
    pub fn new() -> (r: MockLLMClient)
        ensures
            r.responses@ == Seq::<String>::empty(),
            r.current_response == 0,
    {
        MockLLMClient { responses: Vec::new(), current_response: 0 }
    }

    /// Queues one more response at the back of the script.
    pub fn add_response(&mut self, response: String)
        ensures
            final(self).responses@ == old(self).responses@.push(response),
            final(self).current_response == old(self).current_response,
    {
        self.responses.push(response);
    }

    /// Returns the next scripted response, regardless of the prompt and
    /// context, or `GenerationFailure` once the script is exhausted.
    pub fn generate(&mut self, prompt: &str, context: &Vec<String>) -> (r: Result<String, SimError>)
        ensures
            final(self).responses@ == old(self).responses@,
            old(self).current_response < old(self).responses@.len() ==> ({
                &&& r matches Ok(s)
                &&& s@ == old(self).responses@[old(self).current_response as int]@
                &&& final(self).current_response == old(self).current_response + 1
            }),
            old(self).current_response >= old(self).responses@.len() ==> ({
                &&& r matches Err(e)
                &&& e == SimError::GenerationFailure
                &&& final(self).current_response == old(self).current_response
            }),
    {
        if self.current_response >= self.responses.len() {
            return Err(SimError::GenerationFailure);
        }
        let response = self.responses[self.current_response].clone();
        self.current_response = self.current_response + 1;
        Ok(response)
    }
}

impl LLM for MockLLMClient {
    fn generate(&mut self, prompt: &str, context: &Vec<String>) -> Result<String, SimError> {
        self.generate(prompt, context)
    }
}

} // verus!
