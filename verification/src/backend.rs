//! Configuration for the live text-generation backend and the pure parts
//! of its request pipeline. The backend runs an external model binary;
//! launching it is input/output and lives outside this crate, which only
//! builds the full prompt handed to it and interprets what comes back.

use vstd::prelude::*;
use crate::errors::SimError;
use crate::text::trim_spec;
use crate::text::trim_whitespace;

verus! {

/// Run configuration: how many players, and where the model and its
/// runner binary live.
pub struct Config {
    pub num_players: i32,
    pub model_path: String,
    pub llama_path: String,
}

/// What one invocation of the model binary produced.
pub struct LLMClientResponse {
    pub response: String,
    pub success: bool,
}

/// The paths a live generation client needs.
pub struct LLMClient {
    pub llama_path: String,
    pub model_path: String,
}

impl LLMClient {
    /// A client for the given runner binary and model file.
    pub fn new(llama_path: String, model_path: String) -> (r: LLMClient)
        ensures
            r.llama_path@ == llama_path@,
            r.model_path@ == model_path@,
    {
        LLMClient { llama_path, model_path }
    }

    /// A client configured from a run configuration.
    pub fn from_config(config: &Config) -> (r: LLMClient)
        ensures
            r.llama_path@ == config.llama_path@,
            r.model_path@ == config.model_path@,
    {
        LLMClient::new(config.llama_path.clone(), config.model_path.clone())
    }
}

/// A standalone runner for the model binary, configured the same way as
/// the live client.
pub struct LlamaSimulation {
    pub llama_path: String,
    pub model_path: String,
}

/// What one standalone run of the model binary produced.
pub struct SimulationResult {
    pub response: String,
    pub success: bool,
}

impl LlamaSimulation {
    /// A runner for the given binary and model file.
    pub fn new(llama_path: String, model_path: String) -> (r: LlamaSimulation)
        ensures
            r.llama_path@ == llama_path@,
            r.model_path@ == model_path@,
    {
        LlamaSimulation { llama_path, model_path }
    }
}

/// The given memory entries joined with single line feeds.
pub open spec fn joined_lines(ctx: Seq<Seq<char>>) -> Seq<char>
    decreases ctx.len(),
{
    if ctx.len() == 0 {
        Seq::empty()
    } else if ctx.len() == 1 {
        ctx[0]
    } else {
        joined_lines(ctx.drop_last()) + "\n"@ + ctx.last()
    }
}

/// The full prompt handed to the model binary: the phase prompt alone if
/// the memory is empty, else the prompt, a header, and the memory
/// entries joined with line feeds.
pub open spec fn full_prompt_spec(prompt: Seq<char>, ctx: Seq<Seq<char>>) -> Seq<char> {
    if ctx.len() == 0 {
        prompt
    } else {
        prompt + "\n\nBased on this context:\n"@ + joined_lines(ctx)
    }
}

/// Combines a phase prompt and a contestant memory into the full prompt
/// for the model binary.
pub fn build_full_prompt(prompt: &str, context: &Vec<String>) -> (r: String)
    ensures
        r@ == full_prompt_spec(prompt@, context.deep_view()),
{
    let ghost ctx = context.deep_view();
    if context.len() == 0 {
        return prompt.to_owned();
    }
    let mut s = prompt.to_owned();
    s.append("\n\nBased on this context:\n");
    let mut i: usize = 0;
    let n = context.len();
    while i < n
        invariant
            0 < n == context@.len(),
            ctx == context.deep_view(),
            i <= n,
            i == 0 ==> s@ == prompt@ + "\n\nBased on this context:\n"@,
            i > 0 ==> s@ == prompt@ + "\n\nBased on this context:\n"@ + joined_lines(
                ctx.take(i as int),
            ),
        decreases n - i,
    {
        if i > 0 {
            s.append("\n");
        }
        s.append(context[i].as_str());
        proof {
            let cur = ctx.take(i + 1);
            assert(cur.drop_last() =~= ctx.take(i as int));
            assert(cur.last() == ctx[i as int]);
            assert(ctx[i as int] == context@[i as int]@);
            if i == 0 {
                assert(joined_lines(cur) == cur[0]);
            }
        }
        i = i + 1;
    }
    proof {
        assert(ctx.take(n as int) =~= ctx);
    }
    s
}

/// Interprets what the model binary produced: a failed invocation is a
/// `GenerationFailure`; a successful one yields its text trimmed of
/// surrounding whitespace.
pub fn finish_generation(response: &LLMClientResponse) -> (r: Result<String, SimError>)
    ensures
        response.success ==> (r matches Ok(s) && s@ == trim_spec(response.response@)),
        !response.success ==> (r matches Err(e) && e == SimError::GenerationFailure),
{
    if !response.success {
        Err(SimError::GenerationFailure)
    } else {
        Ok(trim_whitespace(response.response.as_str()))
    }
}

} // verus!
