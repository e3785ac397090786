//! xks: typed System One judgments (`noul` / `choice` / `score`) from a
//! model's next-token distribution: the prompts, the engine's token
//! bookkeeping, the site's choices, the HTTP routing and the tools that
//! measure it, each with what it is proved to do.
pub mod artichoke;
pub mod backend;
pub mod cli;
pub mod corroborate;
pub mod decisions;
pub mod doctor;
pub mod eval;
pub mod judge;
pub mod ledger;
pub mod prompt;
pub mod protocol;
pub mod server;
pub mod site;
pub mod subproject;
pub mod text;
pub mod trie;
