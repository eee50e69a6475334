use vstd::prelude::*;

verus! {

/// Where the pipeline keeps its artifacts.
pub struct PathsConfig {
    pub papers: String,
    pub embeddings: String,
    pub experiments: String,
    pub output: String,
}

/// How long the agent may run.
pub struct AgentConfig {
    pub max_iterations: u32,
    pub timeout_seconds: u64,
}

/// Where and how verbosely to log.
pub struct LoggingConfig {
    pub level: String,
    pub file: String,
}

} // verus!
