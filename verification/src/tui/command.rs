//! The commands that begin with a slash.
use crate::text::{begins, chars_of, is_whitespace, starts_with, strip_prefix, whitespace};
use crate::tui::app::AppMode;
use vstd::prelude::*;

verus! {

/// When a command can be given.
#[derive(Debug, Clone, Copy, PartialEq, Eq, Structural)]
pub enum CommandScope {
    Always,
    Confirming,
}

/// A command.
#[derive(Debug, Clone, Copy)]
pub struct SlashCommand {
    pub name: &'static str,
    pub argument: Option<&'static str>,
    pub description: &'static str,
    pub argument_required: bool,
    pub scope: CommandScope,
}

/// The view of a command.
#[verifier::ext_equal]
pub struct CommandView {
    pub name: Seq<char>,
    pub argument: Option<Seq<char>>,
    pub description: Seq<char>,
    pub argument_required: bool,
    pub scope: CommandScope,
}

impl View for SlashCommand {
    type V = CommandView;

    open spec fn view(&self) -> CommandView {
        CommandView {
            name: self.name@,
            argument: match self.argument {
                Some(text) => Some(text@),
                None => None,
            },
            description: self.description@,
            argument_required: self.argument_required,
            scope: self.scope,
        }
    }
}

/// The views of commands.
pub open spec fn command_views(v: Seq<SlashCommand>) -> Seq<CommandView> {
    v.map_values(|c: SlashCommand| c@)
}

/// A command that can always be given; an argument is required.
pub open spec fn always_view(
    name: Seq<char>,
    argument: Option<Seq<char>>,
    description: Seq<char>,
) -> CommandView {
    CommandView {
        name,
        argument,
        description,
        argument_required: argument is Some,
        scope: CommandScope::Always,
    }
}

/// A command that can always be given, with an argument that may be left out.
pub open spec fn optional_view(
    name: Seq<char>,
    argument: Seq<char>,
    description: Seq<char>,
) -> CommandView {
    CommandView {
        name,
        argument: Some(argument),
        description,
        argument_required: false,
        scope: CommandScope::Always,
    }
}

/// A command that can be given while the user is asked something.
pub open spec fn confirming_view(
    name: Seq<char>,
    argument: Option<Seq<char>>,
    description: Seq<char>,
) -> CommandView {
    CommandView { scope: CommandScope::Confirming, ..always_view(name, argument, description) }
}

/// All commands.
pub open spec fn catalog() -> Seq<CommandView> {
    seq![
        always_view("new"@, None, "Start a new session"@),
        optional_view("model"@, "[name]"@, "Choose a logged-in model"@),
        always_view("sessions"@, None, "List sessions for this workspace"@),
        always_view("tree"@, None, "Show the session tree and its branches"@),
        always_view("branch"@, Some("<name>"@), "Create or select a branch"@),
        always_view("resume"@, Some("<id>"@), "Resume a session by ID prefix"@),
        always_view("rename"@, Some("<title>"@), "Rename the current session"@),
        always_view("retry"@, None, "Retry the latest interrupted request"@),
        always_view("compact"@, None, "Compact the current session context"@),
        always_view("skills"@, None, "List available Skills"@),
        always_view("skill"@, Some("<name>"@), "Switch a Skill on or off"@),
        always_view("projects"@, None, "List recent projects"@),
        always_view("project"@, Some("<index|path>"@), "Switch to another project"@),
        always_view("status"@, None, "Show session, model, and context status"@),
        always_view("clear"@, None, "Clear messages from the TUI"@),
        always_view("reset"@, None, "Reset the current context"@),
        always_view("help"@, None, "Show available commands"@),
        always_view("cancel"@, None, "Cancel the active turn"@),
        always_view("quit"@, None, "Exit Noya"@),
        confirming_view("approve"@, None, "Approve the pending tool call"@),
        confirming_view("reject"@, None, "Reject the pending tool call"@),
        confirming_view(
            "modify"@,
            Some("<json>"@),
            "Modify and approve the pending tool call"@,
        ),
    ]
}

impl SlashCommand {
    fn always(
        name: &'static str,
        argument: Option<&'static str>,
        description: &'static str,
    ) -> (r: Self)
        ensures
            r@ == always_view(
                name@,
                match argument {
                    Some(text) => Some(text@),
                    None => None,
                },
                description@,
            ),
    {
        SlashCommand {
            name,
            argument,
            description,
            argument_required: argument.is_some(),
            scope: CommandScope::Always,
        }
    }

    fn optional(name: &'static str, argument: &'static str, description: &'static str) -> (r: Self)
        ensures
            r@ == optional_view(name@, argument@, description@),
    {
        SlashCommand {
            name,
            argument: Some(argument),
            description,
            argument_required: false,
            scope: CommandScope::Always,
        }
    }

    fn confirming(
        name: &'static str,
        argument: Option<&'static str>,
        description: &'static str,
    ) -> (r: Self)
        ensures
            r@ == confirming_view(
                name@,
                match argument {
                    Some(text) => Some(text@),
                    None => None,
                },
                description@,
            ),
    {
        SlashCommand {
            name,
            argument,
            description,
            argument_required: argument.is_some(),
            scope: CommandScope::Confirming,
        }
    }

    /// What is typed to give the command.
    pub fn input(&self) -> (r: String)
        ensures
            r@ == "/"@ + self.name@,
    {
        let mut out: String = "/".to_owned();
        out.append(self.name);
        out
    }
}

/// All commands.
pub fn commands() -> (r: Vec<SlashCommand>)
    ensures
        command_views(r@) == catalog(),
{
    let out = vec![
        SlashCommand::always("new", None, "Start a new session"),
        SlashCommand::optional("model", "[name]", "Choose a logged-in model"),
        SlashCommand::always("sessions", None, "List sessions for this workspace"),
        SlashCommand::always("tree", None, "Show the session tree and its branches"),
        SlashCommand::always("branch", Some("<name>"), "Create or select a branch"),
        SlashCommand::always("resume", Some("<id>"), "Resume a session by ID prefix"),
        SlashCommand::always("rename", Some("<title>"), "Rename the current session"),
        SlashCommand::always("retry", None, "Retry the latest interrupted request"),
        SlashCommand::always("compact", None, "Compact the current session context"),
        SlashCommand::always("skills", None, "List available Skills"),
        SlashCommand::always("skill", Some("<name>"), "Switch a Skill on or off"),
        SlashCommand::always("projects", None, "List recent projects"),
        SlashCommand::always("project", Some("<index|path>"), "Switch to another project"),
        SlashCommand::always("status", None, "Show session, model, and context status"),
        SlashCommand::always("clear", None, "Clear messages from the TUI"),
        SlashCommand::always("reset", None, "Reset the current context"),
        SlashCommand::always("help", None, "Show available commands"),
        SlashCommand::always("cancel", None, "Cancel the active turn"),
        SlashCommand::always("quit", None, "Exit Noya"),
        SlashCommand::confirming("approve", None, "Approve the pending tool call"),
        SlashCommand::confirming("reject", None, "Reject the pending tool call"),
        SlashCommand::confirming(
            "modify",
            Some("<json>"),
            "Modify and approve the pending tool call",
        ),
    ];
    assert(command_views(out@) =~= catalog());
    out
}

/// A command is offered for what was typed behind the slash.
pub open spec fn is_offered(c: CommandView, prefix: Seq<char>, mode: AppMode) -> bool {
    begins(c.name, prefix) && (c.scope == CommandScope::Always || mode == AppMode::Confirming)
}

/// The commands of a list that are offered.
pub open spec fn offered(list: Seq<CommandView>, prefix: Seq<char>, mode: AppMode) -> Seq<CommandView>
    decreases list.len(),
{
    if list.len() == 0 {
        Seq::empty()
    } else if is_offered(list.last(), prefix, mode) {
        offered(list.drop_last(), prefix, mode).push(list.last())
    } else {
        offered(list.drop_last(), prefix, mode)
    }
}

/// There is space in a text.
pub open spec fn has_space(s: Seq<char>) -> bool {
    exists|i: int| 0 <= i < s.len() && whitespace(#[trigger] s[i])
}

/// The commands that are offered for what was typed: those that begin with it,
/// as long as it begins with a slash and there is no space in it.
pub open spec fn suggested(input: Seq<char>, mode: AppMode) -> Seq<CommandView> {
    if !begins(input, "/"@) || has_space(input.skip("/"@.len() as int)) {
        Seq::empty()
    } else {
        offered(catalog(), input.skip("/"@.len() as int), mode)
    }
}

fn contains_space(text: &str) -> (r: bool)
    ensures
        r == has_space(text@),
{
    let chars = chars_of(text);
    let mut i: usize = 0;
    while i < chars.len()
        invariant
            i <= chars.len(),
            chars@ == text@,
            forall|j: int| 0 <= j < i ==> !whitespace(#[trigger] text@[j]),
        decreases chars.len() - i,
    {
        if is_whitespace(chars[i]) {
            assert(whitespace(text@[i as int]));
            return true;
        }
        i += 1;
    }
    false
}

/// The commands that are offered for what was typed.
pub fn suggestions(input: &str, mode: AppMode) -> (r: Vec<SlashCommand>)
    ensures
        command_views(r@) == suggested(input@, mode),
{
    let mut out: Vec<SlashCommand> = Vec::new();
    assert(command_views(out@) =~= Seq::empty());
    let prefix = match strip_prefix(input, "/") {
        Some(prefix) => prefix,
        None => {
            return out;
        },
    };
    if contains_space(prefix.as_str()) {
        return out;
    }
    let all = commands();
    let ghost views = catalog();
    let mut i: usize = 0;
    assert(views.take(0) =~= Seq::empty());
    while i < all.len()
        invariant
            i <= all.len(),
            views == command_views(all@),
            command_views(out@) == offered(views.take(i as int), prefix@, mode),
        decreases all.len() - i,
    {
        let command = all[i];
        proof {
            assert(views.take(i + 1).drop_last() =~= views.take(i as int));
            assert(views.take(i + 1).last() == command@);
        }
        let in_scope = match command.scope {
            CommandScope::Always => true,
            CommandScope::Confirming => mode == AppMode::Confirming,
        };
        if starts_with(command.name, prefix.as_str()) && in_scope {
            assert(command_views(out@.push(command)) =~= command_views(out@).push(command@));
            out.push(command);
        }
        i += 1;
    }
    assert(views.take(i as int) =~= views);
    out
}

} // verus!
