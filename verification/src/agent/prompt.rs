//! The system prompt.
use crate::text::{first, take_chars};
use vstd::prelude::*;

verus! {

/// The rules that every prompt begins with.
pub const BASE: &'static str = "You are a coding agent operating inside the user's repository.\n\nRules:\n- Inspect before editing. Keep changes focused and explain what changed.\n- Use the available tools for file inspection, search, and edits.\n- Prefer apply_patch for changes to existing files; use write_file for new files or intentional full replacements.\n- Use read_file ranges for large files, and inspect git_status/git_diff before reporting completion when the workspace is a Git repository.\n- Never claim a command or test ran unless you ran it.\n- Do not modify files outside the configured workspace.\n- Do not run destructive commands or make broad changes unless the user explicitly requested them.\n- Prefer small, reversible edits and run focused validation after edits.\n";

/// How much of a workspace document goes into the prompt, in characters.
pub const DOCUMENT_LIMIT: usize = 8000;

/// A Skill as the prompt shows it.
#[derive(Debug)]
pub struct SkillPrompt {
    pub name: String,
    pub source: String,
    pub digest: String,
    pub body: String,
}

/// The view of a Skill in the prompt.
#[verifier::ext_equal]
pub struct SkillPromptView {
    pub name: Seq<char>,
    pub source: Seq<char>,
    pub digest: Seq<char>,
    pub body: Seq<char>,
}

impl View for SkillPrompt {
    type V = SkillPromptView;

    open spec fn view(&self) -> SkillPromptView {
        SkillPromptView {
            name: self.name@,
            source: self.source@,
            digest: self.digest@,
            body: self.body@,
        }
    }
}

/// A document of the workspace: its name and its content.
#[derive(Debug)]
pub struct Document {
    pub name: String,
    pub content: String,
}

/// The documents in the prompt.
pub open spec fn documents_text(documents: Seq<Document>) -> Seq<char>
    decreases documents.len(),
{
    if documents.len() == 0 {
        Seq::empty()
    } else {
        let d = documents.last();
        documents_text(documents.drop_last()) + "\n## "@ + d.name@ + "\n"@ + first(
            d.content@,
            DOCUMENT_LIMIT as nat,
        ) + "\n"@
    }
}

/// The Skills in the prompt.
pub open spec fn skills_text(skills: Seq<SkillPromptView>) -> Seq<char>
    decreases skills.len(),
{
    if skills.len() == 0 {
        Seq::empty()
    } else {
        let s = skills.last();
        skills_text(skills.drop_last()) + "\n<skill name=\""@ + s.name + "\" source=\""@ + s.source
            + "\" digest=\""@ + s.digest + "\">\n"@ + s.body + "\n</skill>\n"@
    }
}

/// The views of a list of Skills.
pub open spec fn skill_prompt_views(skills: Seq<SkillPrompt>) -> Seq<SkillPromptView> {
    skills.map_values(|s: SkillPrompt| s@)
}

/// The whole prompt: the rules, the workspace, its documents and the active
/// Skills.
pub fn build(workspace: &str, documents: &Vec<Document>, skills: &Vec<SkillPrompt>) -> (r: String)
    ensures
        r@ == BASE@ + "\nWorkspace: "@ + workspace@ + "\n"@ + documents_text(documents@)
            + skills_text(skill_prompt_views(skills@)),
{
    let mut prompt: String = BASE.to_owned();
    prompt.append("\nWorkspace: ");
    prompt.append(workspace);
    prompt.append("\n");
    let ghost head = prompt@;
    let mut i: usize = 0;
    assert(head + documents_text(documents@.take(0)) =~= head);
    while i < documents.len()
        invariant
            i <= documents.len(),
            prompt@ == head + documents_text(documents@.take(i as int)),
        decreases documents.len() - i,
    {
        let document = &documents[i];
        prompt.append("\n## ");
        prompt.append(document.name.as_str());
        prompt.append("\n");
        prompt.append(take_chars(document.content.as_str(), DOCUMENT_LIMIT).as_str());
        prompt.append("\n");
        i += 1;
        proof {
            let now = documents@.take(i as int);
            assert(now.drop_last() =~= documents@.take(i - 1));
            assert(now.last() == *document);
            assert(prompt@ =~= head + documents_text(now));
        }
    }
    assert(documents@.take(i as int) =~= documents@);
    let ghost head = prompt@;
    let ghost views = skill_prompt_views(skills@);
    let mut j: usize = 0;
    assert(head + skills_text(views.take(0)) =~= head);
    while j < skills.len()
        invariant
            j <= skills.len(),
            views == skill_prompt_views(skills@),
            prompt@ == head + skills_text(views.take(j as int)),
        decreases skills.len() - j,
    {
        let skill = &skills[j];
        prompt.append("\n<skill name=\"");
        prompt.append(skill.name.as_str());
        prompt.append("\" source=\"");
        prompt.append(skill.source.as_str());
        prompt.append("\" digest=\"");
        prompt.append(skill.digest.as_str());
        prompt.append("\">\n");
        prompt.append(skill.body.as_str());
        prompt.append("\n</skill>\n");
        j += 1;
        proof {
            let now = views.take(j as int);
            assert(now.drop_last() =~= views.take(j - 1));
            assert(now.last() == skill@);
            assert(prompt@ =~= head + skills_text(now));
        }
    }
    assert(views.take(j as int) =~= views);
    prompt
}

} // verus!
