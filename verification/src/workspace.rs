//! Tools that a workspace (such as Design or Assemble) offers.

use vstd::prelude::*;

verus! {

/// What a tool does when invoked.
#[derive(Debug, Clone, Copy, PartialEq, Eq)]
pub struct Action();

/// A tool that can be invoked in a workspace.
#[derive(Debug, Clone, PartialEq, Eq)]
pub struct Tool {
    pub name: String,
    pub action: Action,
}

/// A group of tools with related functionality.
#[derive(Debug, Clone, PartialEq, Eq)]
pub struct Toolgroup {
    pub name: String,
    pub tools: Vec<Tool>,
}

} // verus!
