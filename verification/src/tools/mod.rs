//! The tools that a model may call, and which of them the user must approve.
pub mod filesystem;
pub mod laws;
pub mod lsp;
pub mod patch;

use crate::agent::autonomous::listed_parts;
use crate::llm::protocol::{FunctionDefinition, ToolDefinition};
use crate::order::{drop_repeats, ordered, sort_texts, without_repeats};
use crate::seqs::{lemma_slot_is, slot_of};
use crate::text::{lemma_texts_push, lists, same, texts, trim};
use vstd::prelude::*;

verus! {

/// How much harm a tool can do.
#[derive(Debug, Clone, Copy, PartialEq, Eq, Structural)]
pub enum ToolRisk {
    ReadOnly,
    Mutating,
    Dangerous,
}

/// Which tools the user must approve.
#[derive(Debug, Clone, Copy, PartialEq, Eq, Structural)]
pub enum ToolApprovalMode {
    Never,
    Mutating,
    Always,
}

impl Default for ToolApprovalMode {
    fn default() -> (r: Self)
        ensures
            r == ToolApprovalMode::Mutating,
    {
        ToolApprovalMode::Mutating
    }
}

impl ToolApprovalMode {
    /// The mode as it is written on the command line.
    pub fn as_str(self) -> (r: &'static str)
        ensures
            r@ == (match self {
                ToolApprovalMode::Never => "never"@,
                ToolApprovalMode::Mutating => "mutating"@,
                ToolApprovalMode::Always => "always"@,
            }),
    {
        match self {
            ToolApprovalMode::Never => "never",
            ToolApprovalMode::Mutating => "mutating",
            ToolApprovalMode::Always => "always",
        }
    }
}

/// Which tools may run, and which only after the user has agreed.
#[derive(Debug)]
pub struct ToolPolicy {
    pub approval_mode: ToolApprovalMode,
    pub blocked_tools: Vec<String>,
}

impl Default for ToolPolicy {
    fn default() -> (r: Self)
        ensures
            r.approval_mode == ToolApprovalMode::Mutating,
            r.blocked_tools@.len() == 0,
    {
        ToolPolicy { approval_mode: ToolApprovalMode::Mutating, blocked_tools: Vec::new() }
    }
}

/// A tool of this risk needs the user's agreement under this mode.
pub open spec fn needs_approval(mode: ToolApprovalMode, risk: ToolRisk) -> bool {
    match mode {
        ToolApprovalMode::Never => false,
        ToolApprovalMode::Mutating => risk != ToolRisk::ReadOnly,
        ToolApprovalMode::Always => true,
    }
}

impl ToolPolicy {
    /// The policy with other tools blocked: those named, each once and in
    /// order, without surrounding white space and without empty names.
    pub fn with_blocked_tools(self, names: Vec<String>) -> (r: Self)
        ensures
            r.approval_mode == self.approval_mode,
            texts(r.blocked_tools@) == without_repeats(ordered(listed_parts(texts(names@)))),
    {
        let ghost all = texts(names@);
        let mut kept: Vec<String> = Vec::new();
        let mut i: usize = 0;
        assert(texts(kept@) =~= listed_parts(all.take(0)));
        while i < names.len()
            invariant
                i <= names.len(),
                all == texts(names@),
                texts(kept@) == listed_parts(all.take(i as int)),
            decreases names.len() - i,
        {
            let name = trim(names[i].as_str());
            proof {
                let now = all.take(i + 1);
                assert(now.drop_last() =~= all.take(i as int));
                assert(now.last() == names@[i as int]@);
                lemma_texts_push(kept@, name);
            }
            if !name.as_str().is_empty() {
                kept.push(name);
            }
            i += 1;
        }
        assert(all.take(i as int) =~= all);
        ToolPolicy {
            approval_mode: self.approval_mode,
            blocked_tools: drop_repeats(&sort_texts(&kept)),
        }
    }

    /// Whether a tool may not run at all.
    pub fn is_blocked(&self, name: &str) -> (r: bool)
        ensures
            r == texts(self.blocked_tools@).contains(name@),
    {
        lists(&self.blocked_tools, name)
    }

    /// Whether the user must agree before a tool of this risk runs.
    pub fn requires_approval(&self, risk: ToolRisk) -> (r: bool)
        ensures
            r == needs_approval(self.approval_mode, risk),
    {
        match self.approval_mode {
            ToolApprovalMode::Never => false,
            ToolApprovalMode::Mutating => risk != ToolRisk::ReadOnly,
            ToolApprovalMode::Always => true,
        }
    }
}

/// A tool: its name, what it is for, the JSON schema of its arguments, and how
/// much harm it can do.
#[derive(Debug)]
pub struct ToolSpec {
    pub name: String,
    pub description: String,
    pub parameters: String,
    pub risk: ToolRisk,
}

/// The view of a tool.
#[verifier::ext_equal]
pub struct ToolView {
    pub name: Seq<char>,
    pub description: Seq<char>,
    pub parameters: Seq<char>,
    pub risk: ToolRisk,
}

impl View for ToolSpec {
    type V = ToolView;

    open spec fn view(&self) -> ToolView {
        ToolView {
            name: self.name@,
            description: self.description@,
            parameters: self.parameters@,
            risk: self.risk,
        }
    }
}

/// The views of a list of tools.
pub open spec fn tool_views(tools: Seq<ToolSpec>) -> Seq<ToolView> {
    tools.map_values(|t: ToolSpec| t@)
}

/// The names of the tools.
pub open spec fn tool_names(tools: Seq<ToolView>) -> Seq<Seq<char>> {
    tools.map_values(|t: ToolView| t.name)
}

/// A tool with these features.
pub open spec fn described(
    name: Seq<char>,
    description: Seq<char>,
    parameters: Seq<char>,
    risk: ToolRisk,
) -> ToolView {
    ToolView { name, description, parameters, risk }
}

fn tool(name: &str, description: &str, parameters: &str, risk: ToolRisk) -> (r: ToolSpec)
    ensures
        r@ == described(name@, description@, parameters@, risk),
{
    ToolSpec {
        name: name.to_owned(),
        description: description.to_owned(),
        parameters: parameters.to_owned(),
        risk,
    }
}

/// The tools for work on a repository, in the order in which a model is told of
/// them.
pub open spec fn coding_tools() -> Seq<ToolView> {
    seq![
        described(
            "read_file"@,
            "Read a UTF-8 file or a zero-based line range in the workspace"@,
            "{\"additionalProperties\":false,\"properties\":{\"limit\":{\"description\":\"Maximum lines to return\",\"minimum\":1,\"type\":\"integer\"},\"offset\":{\"description\":\"Zero-based line offset\",\"minimum\":0,\"type\":\"integer\"},\"path\":{\"type\":\"string\"}},\"required\":[\"path\"],\"type\":\"object\"}"@,
            ToolRisk::ReadOnly,
        ),
        described(
            "list_dir"@,
            "List entries in a workspace directory"@,
            "{\"additionalProperties\":false,\"properties\":{\"path\":{\"type\":\"string\"}},\"required\":[],\"type\":\"object\"}"@,
            ToolRisk::ReadOnly,
        ),
        described(
            "search_text"@,
            "Search text recursively using ripgrep when available"@,
            "{\"additionalProperties\":false,\"properties\":{\"path\":{\"type\":\"string\"},\"query\":{\"type\":\"string\"}},\"required\":[\"query\"],\"type\":\"object\"}"@,
            ToolRisk::ReadOnly,
        ),
        described(
            "code_navigation"@,
            "Navigate code semantically with a local language server: find definitions, references, or workspace symbols"@,
            "{\"additionalProperties\":false,\"properties\":{\"character\":{\"description\":\"Zero-based UTF-16 character offset\",\"minimum\":0,\"type\":\"integer\"},\"line\":{\"description\":\"Zero-based line number\",\"minimum\":0,\"type\":\"integer\"},\"operation\":{\"enum\":[\"definition\",\"references\",\"workspace_symbols\"],\"type\":\"string\"},\"path\":{\"description\":\"Workspace-relative file path for definition or references\",\"type\":\"string\"},\"query\":{\"description\":\"Symbol query for workspace_symbols\",\"type\":\"string\"}},\"required\":[\"operation\"],\"type\":\"object\"}"@,
            ToolRisk::ReadOnly,
        ),
        described(
            "apply_patch"@,
            "Validate and apply one or more exact, unambiguous text replacements to an existing UTF-8 file in one write"@,
            "{\"additionalProperties\":false,\"properties\":{\"edits\":{\"items\":{\"additionalProperties\":false,\"properties\":{\"new_text\":{\"type\":\"string\"},\"old_text\":{\"minLength\":1,\"type\":\"string\"}},\"required\":[\"old_text\",\"new_text\"],\"type\":\"object\"},\"minItems\":1,\"type\":\"array\"},\"path\":{\"type\":\"string\"}},\"required\":[\"path\",\"edits\"],\"type\":\"object\"}"@,
            ToolRisk::Mutating,
        ),
        described(
            "write_file"@,
            "Write or replace a UTF-8 file in the workspace"@,
            "{\"additionalProperties\":false,\"properties\":{\"content\":{\"type\":\"string\"},\"path\":{\"type\":\"string\"}},\"required\":[\"path\",\"content\"],\"type\":\"object\"}"@,
            ToolRisk::Mutating,
        ),
        described(
            "git_status"@,
            "Show the concise Git branch and working-tree status for the workspace"@,
            "{\"additionalProperties\":false,\"properties\":{},\"type\":\"object\"}"@,
            ToolRisk::ReadOnly,
        ),
        described(
            "git_diff"@,
            "Show the unstaged or staged Git diff for the workspace, optionally limited to one path"@,
            "{\"additionalProperties\":false,\"properties\":{\"path\":{\"type\":\"string\"},\"staged\":{\"default\":false,\"type\":\"boolean\"}},\"type\":\"object\"}"@,
            ToolRisk::ReadOnly,
        ),
        described(
            "run_command"@,
            "Run a non-interactive command in the workspace"@,
            "{\"additionalProperties\":false,\"properties\":{\"command\":{\"type\":\"string\"}},\"required\":[\"command\"],\"type\":\"object\"}"@,
            ToolRisk::Dangerous,
        ),
    ]
}

fn coding_catalog() -> (r: Vec<ToolSpec>)
    ensures
        tool_views(r@) == coding_tools(),
{
    let mut tools: Vec<ToolSpec> = Vec::new();
    tools.push(
        tool(
            "read_file",
            "Read a UTF-8 file or a zero-based line range in the workspace",
            "{\"additionalProperties\":false,\"properties\":{\"limit\":{\"description\":\"Maximum lines to return\",\"minimum\":1,\"type\":\"integer\"},\"offset\":{\"description\":\"Zero-based line offset\",\"minimum\":0,\"type\":\"integer\"},\"path\":{\"type\":\"string\"}},\"required\":[\"path\"],\"type\":\"object\"}",
            ToolRisk::ReadOnly,
        ),
    );
    tools.push(
        tool(
            "list_dir",
            "List entries in a workspace directory",
            "{\"additionalProperties\":false,\"properties\":{\"path\":{\"type\":\"string\"}},\"required\":[],\"type\":\"object\"}",
            ToolRisk::ReadOnly,
        ),
    );
    tools.push(
        tool(
            "search_text",
            "Search text recursively using ripgrep when available",
            "{\"additionalProperties\":false,\"properties\":{\"path\":{\"type\":\"string\"},\"query\":{\"type\":\"string\"}},\"required\":[\"query\"],\"type\":\"object\"}",
            ToolRisk::ReadOnly,
        ),
    );
    tools.push(
        tool(
            "code_navigation",
            "Navigate code semantically with a local language server: find definitions, references, or workspace symbols",
            "{\"additionalProperties\":false,\"properties\":{\"character\":{\"description\":\"Zero-based UTF-16 character offset\",\"minimum\":0,\"type\":\"integer\"},\"line\":{\"description\":\"Zero-based line number\",\"minimum\":0,\"type\":\"integer\"},\"operation\":{\"enum\":[\"definition\",\"references\",\"workspace_symbols\"],\"type\":\"string\"},\"path\":{\"description\":\"Workspace-relative file path for definition or references\",\"type\":\"string\"},\"query\":{\"description\":\"Symbol query for workspace_symbols\",\"type\":\"string\"}},\"required\":[\"operation\"],\"type\":\"object\"}",
            ToolRisk::ReadOnly,
        ),
    );
    tools.push(
        tool(
            "apply_patch",
            "Validate and apply one or more exact, unambiguous text replacements to an existing UTF-8 file in one write",
            "{\"additionalProperties\":false,\"properties\":{\"edits\":{\"items\":{\"additionalProperties\":false,\"properties\":{\"new_text\":{\"type\":\"string\"},\"old_text\":{\"minLength\":1,\"type\":\"string\"}},\"required\":[\"old_text\",\"new_text\"],\"type\":\"object\"},\"minItems\":1,\"type\":\"array\"},\"path\":{\"type\":\"string\"}},\"required\":[\"path\",\"edits\"],\"type\":\"object\"}",
            ToolRisk::Mutating,
        ),
    );
    tools.push(
        tool(
            "write_file",
            "Write or replace a UTF-8 file in the workspace",
            "{\"additionalProperties\":false,\"properties\":{\"content\":{\"type\":\"string\"},\"path\":{\"type\":\"string\"}},\"required\":[\"path\",\"content\"],\"type\":\"object\"}",
            ToolRisk::Mutating,
        ),
    );
    tools.push(
        tool(
            "git_status",
            "Show the concise Git branch and working-tree status for the workspace",
            "{\"additionalProperties\":false,\"properties\":{},\"type\":\"object\"}",
            ToolRisk::ReadOnly,
        ),
    );
    tools.push(
        tool(
            "git_diff",
            "Show the unstaged or staged Git diff for the workspace, optionally limited to one path",
            "{\"additionalProperties\":false,\"properties\":{\"path\":{\"type\":\"string\"},\"staged\":{\"default\":false,\"type\":\"boolean\"}},\"type\":\"object\"}",
            ToolRisk::ReadOnly,
        ),
    );
    tools.push(
        tool(
            "run_command",
            "Run a non-interactive command in the workspace",
            "{\"additionalProperties\":false,\"properties\":{\"command\":{\"type\":\"string\"}},\"required\":[\"command\"],\"type\":\"object\"}",
            ToolRisk::Dangerous,
        ),
    );
    assert(tool_views(tools@) =~= coding_tools());
    tools
}

/// The tools that a model may call, under a policy.
#[derive(Debug)]
pub struct ToolRegistry {
    pub(crate) tools: Vec<ToolSpec>,
    pub(crate) policy: ToolPolicy,
}

/// The view of a registry.
#[verifier::ext_equal]
pub struct RegistryView {
    pub tools: Seq<ToolView>,
    pub mode: ToolApprovalMode,
    pub blocked: Seq<Seq<char>>,
}

impl View for ToolRegistry {
    type V = RegistryView;

    closed spec fn view(&self) -> RegistryView {
        RegistryView {
            tools: tool_views(self.tools@),
            mode: self.policy.approval_mode,
            blocked: texts(self.policy.blocked_tools@),
        }
    }
}

/// Whether a tool needs the user's agreement; none where there is no such tool.
pub open spec fn approval_of(r: RegistryView, name: Seq<char>) -> Option<bool> {
    let k = slot_of(tool_names(r.tools), name);
    if k < r.tools.len() {
        Some(needs_approval(r.mode, r.tools[k].risk))
    } else {
        None
    }
}

impl ToolRegistry {
    /// The tools for work on a repository, under the default policy.
    pub fn coding_defaults() -> (r: Self)
        ensures
            r@ == (RegistryView {
                tools: coding_tools(),
                mode: ToolApprovalMode::Mutating,
                blocked: Seq::empty(),
            }),
    {
        let out = ToolRegistry { tools: coding_catalog(), policy: ToolPolicy::default() };
        assert(out@.blocked =~= Seq::<Seq<char>>::empty());
        out
    }

    /// The same tools under another policy.
    pub fn with_policy(self, policy: ToolPolicy) -> (r: Self)
        ensures
            r@ == (RegistryView {
                tools: self@.tools,
                mode: policy.approval_mode,
                blocked: texts(policy.blocked_tools@),
            }),
    {
        ToolRegistry { tools: self.tools, policy }
    }

    /// The policy.
    pub fn policy(&self) -> (r: &ToolPolicy)
        ensures
            r.approval_mode == self@.mode,
            texts(r.blocked_tools@) == self@.blocked,
    {
        &self.policy
    }

    /// The tools as a model is told of them.
    pub fn definitions(&self) -> (r: Vec<ToolDefinition>)
        ensures
            r@.len() == self@.tools.len(),
            forall|i: int|
                0 <= i < r@.len() ==> {
                    let d = #[trigger] r@[i];
                    &&& d.tool_type@ == "function"@
                    &&& d.function.name@ == self@.tools[i].name
                    &&& d.function.description@ == self@.tools[i].description
                    &&& d.function.parameters@ == self@.tools[i].parameters
                },
    {
        let mut out: Vec<ToolDefinition> = Vec::new();
        let mut i: usize = 0;
        while i < self.tools.len()
            invariant
                i <= self.tools.len(),
                out@.len() == i,
                self@.tools.len() == self.tools.len(),
                forall|j: int|
                    0 <= j < i ==> {
                        let d = #[trigger] out@[j];
                        &&& d.tool_type@ == "function"@
                        &&& d.function.name@ == self@.tools[j].name
                        &&& d.function.description@ == self@.tools[j].description
                        &&& d.function.parameters@ == self@.tools[j].parameters
                    },
            decreases self.tools.len() - i,
        {
            let tool = &self.tools[i];
            assert(self@.tools[i as int] == tool@);
            out.push(
                ToolDefinition {
                    tool_type: "function".to_owned(),
                    function: FunctionDefinition {
                        name: tool.name.clone(),
                        description: tool.description.clone(),
                        parameters: tool.parameters.clone(),
                    },
                },
            );
            i += 1;
        }
        out
    }

    /// The position of a tool.
    fn find(&self, name: &str) -> (r: Option<usize>)
        ensures
            match r {
                Some(k) => k < self.tools.len() && slot_of(tool_names(self@.tools), name@) == k,
                None => slot_of(tool_names(self@.tools), name@) == self.tools.len(),
            },
            self@.tools.len() == self.tools.len(),
    {
        let ghost names = tool_names(self@.tools);
        let mut i: usize = 0;
        while i < self.tools.len()
            invariant
                i <= self.tools.len(),
                names == tool_names(self@.tools),
                names.len() == self.tools.len(),
                forall|j: int| 0 <= j < i ==> names[j] != name@,
            decreases self.tools.len() - i,
        {
            assert(names[i as int] == self.tools@[i as int].name@);
            if same(self.tools[i].name.as_str(), name) {
                proof {
                    lemma_slot_is(names, name@, i as int);
                }
                return Some(i);
            }
            i += 1;
        }
        proof {
            lemma_slot_is(names, name@, i as int);
        }
        None
    }

    /// A tool by its name.
    pub fn get(&self, name: &str) -> (r: Option<&ToolSpec>)
        ensures
            ({
                let k = slot_of(tool_names(self@.tools), name@);
                match r {
                    Some(t) => k < self@.tools.len() && t@ == self@.tools[k],
                    None => k == self@.tools.len(),
                }
            }),
    {
        match self.find(name) {
            Some(k) => Some(&self.tools[k]),
            None => None,
        }
    }

    /// Whether a tool needs the user's agreement; none where there is no such
    /// tool.
    pub fn requires_approval(&self, name: &str) -> (r: Option<bool>)
        ensures
            r == approval_of(self@, name@),
    {
        match self.find(name) {
            Some(k) => {
                assert(self@.tools[k as int] == self.tools@[k as int]@);
                Some(self.policy.requires_approval(self.tools[k].risk))
            },
            None => None,
        }
    }

    /// Whether a tool may not run at all.
    pub fn is_blocked(&self, name: &str) -> (r: bool)
        ensures
            r == self@.blocked.contains(name@),
    {
        self.policy.is_blocked(name)
    }
}

/// The tools of the catalogue that change something.
pub open spec fn changes_something(name: Seq<char>) -> bool {
    name == "apply_patch"@ || name == "write_file"@ || name == "run_command"@
}

/// Under the default policy exactly the tools that change something need the
/// user's agreement. Under `never` none does, and under `always` each one does.
pub proof fn approval_follows_the_policy(mode: ToolApprovalMode, k: int)
    requires
        0 <= k < coding_tools().len(),
    ensures
        needs_approval(mode, coding_tools()[k].risk) == (match mode {
            ToolApprovalMode::Never => false,
            ToolApprovalMode::Mutating => changes_something(coding_tools()[k].name),
            ToolApprovalMode::Always => true,
        }),
{
    reveal_strlit("read_file");
    reveal_strlit("list_dir");
    reveal_strlit("search_text");
    reveal_strlit("code_navigation");
    reveal_strlit("apply_patch");
    reveal_strlit("write_file");
    reveal_strlit("git_status");
    reveal_strlit("git_diff");
    reveal_strlit("run_command");
    assert("apply_patch"@.len() == 11);
    assert("write_file"@.len() == 10);
    assert("run_command"@.len() == 11);
    assert("read_file"@.len() == 9);
    assert("list_dir"@.len() == 8);
    assert("search_text"@.len() == 11);
    assert("code_navigation"@.len() == 15);
    assert("git_status"@.len() == 10);
    assert("git_diff"@.len() == 8);
    assert("search_text"@[0] == 's' && "apply_patch"@[0] == 'a' && "run_command"@[0] == 'r');
    assert("git_status"@[0] == 'g' && "write_file"@[0] == 'w');
}

} // verus!
