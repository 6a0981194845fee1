//! Operational modes and deployment contexts.
use vstd::prelude::*;

verus! {

/// A named operational mode that adjusts which tools are enabled and how
/// the agent presents itself.
#[derive(Debug, Clone, Copy, PartialEq, Eq, Structural, Hash)]
pub enum Mode {
    /// Read-only planning pass: no editing tools exposed.
    Planning,
    /// Full editing capabilities.
    Editing,
    /// Interactive session with all tools.
    Interactive,
    /// Single-shot task.
    OneShot,
}

impl Default for Mode {
    /// An interactive session.
    fn default() -> (r: Self)
        ensures
            r == Mode::Interactive,
    {
        Mode::Interactive
    }
}

/// Deployment context that configures tool visibility and prompts.
#[derive(Debug, Clone, Copy, PartialEq, Eq, Structural)]
pub enum Context {
    /// Running as a standalone server agent.
    Agent,
    /// Embedded in a desktop application.
    DesktopApp,
    /// Assisting an IDE extension.
    IdeAssistant,
}

impl Default for Context {
    /// A standalone agent.
    fn default() -> (r: Self)
        ensures
            r == Context::Agent,
    {
        Context::Agent
    }
}

} // verus!
