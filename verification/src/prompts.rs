use vstd::prelude::*;

verus! {

/// The fixed prompt templates handed to the language-model collaborator.
pub struct Prompts;

/// The system prompt, verbatim.
pub open spec fn spec_system_prompt() -> Seq<char> {
    "You are an expert researcher in blockchain consensus mechanisms. You analyze academic papers, generate hypotheses, and conduct rigorous experiments. Your responses are precise, well-cited, and technically accurate."@
}

impl Prompts {
    /// The fixed system prompt.
    pub fn system_prompt() -> (r: &'static str)
        ensures
            r@ == spec_system_prompt(),
    {
        "You are an expert researcher in blockchain consensus mechanisms. You analyze academic papers, generate hypotheses, and conduct rigorous experiments. Your responses are precise, well-cited, and technically accurate."
    }

    /// The system prompt, a blank line, then the user's query.
    pub fn format_user_query(query: &str) -> (r: String)
        ensures
            r@ == spec_system_prompt() + "\n\n"@ + query@,
    {
        let mut r = Self::system_prompt().to_owned();
        r.append("\n\n");
        r.append(query);
        r
    }
}

} // verus!
