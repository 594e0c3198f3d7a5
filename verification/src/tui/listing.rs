//! Lists of sessions, projects, Skills and models, as the interface shows them.
use crate::agent::runtime::{is_active, lists_skill};
use crate::error::{fail, fail_about, Error};
use crate::ids::hyphenated;
use crate::model::{default_of, name_of, Model, ModelStatus};
use crate::paths::{is_same_path, place};
use crate::session::manager::{newest_first, sort_by_age, summary_views};
use crate::paths::{join_path, under};
use crate::session::model::{
    skill_views, ActiveSkillRecord, SessionSummary, SkillView, SummaryView,
};
use crate::skills::{source_name, SkillInfo, SkillInfoView};
use crate::text::{
    begins, copy_list, decimal, decimal_of, first, join, joined, lemma_texts_push, maybe, number,
    pad, pad_left, padded, padded_left, parse_number, same, starts_with, strip_prefix, take_chars,
    texts,
};
use crate::tui::app::{choice_views, ChoiceView, ModelChoice};
use crate::tui::host::{
    status_in, status_label, worker_status_label, Workers, WorkersView,
};
use vstd::prelude::*;

verus! {

/// How many projects are listed.
pub const MAX_PROJECT_HISTORY: usize = 10;

/// How much of a session's identifier is listed, in characters.
pub const SESSION_ID_SHOWN: usize = 12;

/// What a list shows of a session.
pub open spec fn session_line(s: SummaryView) -> Seq<char> {
    first(hyphenated(s.session_id.0), SESSION_ID_SHOWN as nat) + "  "@ + padded_left(
        decimal(s.completed_turns as nat),
        3,
    ) + " turns  "@ + s.title
}

/// What a list of sessions says.
pub open spec fn session_list_text(list: Seq<SummaryView>) -> Seq<char> {
    if list.len() == 0 {
        "No sessions found for this workspace."@
    } else {
        joined(
            seq!["Sessions:"@] + list.map_values(|s: SummaryView| session_line(s)),
            "\n"@,
        )
    }
}

/// What a list of sessions says.
pub fn render_session_list(summaries: &Vec<SessionSummary>) -> (r: String)
    ensures
        r@ == session_list_text(summary_views(summaries@)),
{
    let ghost all = summary_views(summaries@);
    if summaries.len() == 0 {
        return "No sessions found for this workspace.".to_owned();
    }
    let ghost lines_of = all.map_values(|s: SummaryView| session_line(s));
    let mut lines: Vec<String> = Vec::new();
    lines.push("Sessions:".to_owned());
    let mut i: usize = 0;
    assert(texts(lines@) =~= seq!["Sessions:"@] + lines_of.take(0));
    while i < summaries.len()
        invariant
            i <= summaries.len(),
            all == summary_views(summaries@),
            lines_of == all.map_values(|s: SummaryView| session_line(s)),
            texts(lines@) == seq!["Sessions:"@] + lines_of.take(i as int),
        decreases summaries.len() - i,
    {
        let s = &summaries[i];
        let mut line: String = take_chars(s.session_id.to_text().as_str(), SESSION_ID_SHOWN);
        line.append("  ");
        line.append(pad_left(decimal_of(s.completed_turns as u64).as_str(), 3).as_str());
        line.append(" turns  ");
        line.append(s.title.as_str());
        assert(line@ == session_line(s@));
        proof {
            lemma_texts_push(lines@, line);
            assert(lines_of[i as int] == session_line(s@));
        }
        lines.push(line);
        i += 1;
        assert(lines_of.take(i as int) =~= lines_of.take(i - 1).push(lines_of[i - 1]));
        assert(texts(lines@) =~= seq!["Sessions:"@] + lines_of.take(i as int));
    }
    assert(lines_of.take(i as int) =~= lines_of);
    join(&lines, "\n")
}

/// Where the session of a project stands in a list; behind all where there is
/// none.
pub open spec fn project_slot(list: Seq<SummaryView>, workspace: Seq<char>) -> int
    decreases list.len(),
{
    if list.len() == 0 {
        0
    } else if place(list[0].workspace) == place(workspace) {
        0
    } else {
        1 + project_slot(list.drop_first(), workspace)
    }
}

/// The latest session of each project, in the order in which the projects
/// first come.
pub open spec fn by_project(list: Seq<SummaryView>) -> Seq<SummaryView>
    decreases list.len(),
{
    if list.len() == 0 {
        Seq::empty()
    } else {
        let rest = by_project(list.drop_last());
        let s = list.last();
        let k = project_slot(rest, s.workspace);
        if k >= rest.len() {
            rest.push(s)
        } else if s.updated_at > rest[k].updated_at {
            rest.update(k, s)
        } else {
            rest
        }
    }
}

/// The projects that are listed: the latest session of each, the latest first.
pub open spec fn projects(list: Seq<SummaryView>) -> Seq<SummaryView> {
    let sorted = newest_first(by_project(list));
    if sorted.len() > MAX_PROJECT_HISTORY {
        sorted.take(MAX_PROJECT_HISTORY as int)
    } else {
        sorted
    }
}

/// No project comes twice.
pub open spec fn projects_differ(list: Seq<SummaryView>) -> bool {
    forall|i: int, j: int|
        0 <= i < j < list.len() ==> place((#[trigger] list[i]).workspace) != place((
        #[trigger] list[j]).workspace)
}

proof fn lemma_project_slot(list: Seq<SummaryView>, workspace: Seq<char>)
    ensures
        0 <= project_slot(list, workspace) <= list.len(),
        project_slot(list, workspace) < list.len() ==> place(list[project_slot(
            list,
            workspace,
        )].workspace) == place(workspace),
        forall|j: int|
            0 <= j < project_slot(list, workspace) ==> place((#[trigger] list[j]).workspace)
                != place(workspace),
    decreases list.len(),
{
    if list.len() > 0 && place(list[0].workspace) != place(workspace) {
        let rest = list.drop_first();
        lemma_project_slot(rest, workspace);
        let k = project_slot(rest, workspace);
        assert forall|j: int| 0 <= j < k + 1 implies place((#[trigger] list[j]).workspace)
            != place(workspace) by {
            if j > 0 {
                assert(list[j] == rest[j - 1]);
            }
        }
    }
}

proof fn lemma_by_project(list: Seq<SummaryView>)
    ensures
        projects_differ(by_project(list)),
        forall|i: int, j: int|
            0 <= i < list.len() && 0 <= j < by_project(list).len() && place((#[trigger] list[i]).workspace)
                == place((#[trigger] by_project(list)[j]).workspace)
                ==> list[i].updated_at <= by_project(
                list,
            )[j].updated_at,
        forall|i: int|
            0 <= i < list.len() ==> project_slot(
                by_project(list),
                (#[trigger] list[i]).workspace,
            ) < by_project(list).len(),
    decreases list.len(),
{
    if list.len() > 0 {
        let before = list.drop_last();
        lemma_by_project(before);
        let rest = by_project(before);
        let s = list.last();
        lemma_project_slot(rest, s.workspace);
        let k = project_slot(rest, s.workspace);
        let out = by_project(list);
        assert forall|i: int, j: int| 0 <= i < j < out.len() implies place((#[trigger] out[i]).workspace)
            != place((#[trigger] out[j]).workspace) by {
            if j < rest.len() {
                assert(place(out[i].workspace) == place(rest[i].workspace));
                assert(place(out[j].workspace) == place(rest[j].workspace));
            } else {
                assert(out[i] == rest[i]);
            }
        }
        assert forall|i: int, j: int|
            0 <= i < list.len() && 0 <= j < out.len() && place((#[trigger] list[i]).workspace)
                == place((
            #[trigger] out[j]).workspace) implies list[i].updated_at <= out[j].updated_at by {
            if i < before.len() {
                assert(list[i] == before[i]);
                if j < rest.len() {
                    assert(place(rest[j].workspace) == place(out[j].workspace));
                    assert(before[i].updated_at <= rest[j].updated_at);
                } else {
                    lemma_project_slot(rest, before[i].workspace);
                    assert(project_slot(rest, before[i].workspace) < rest.len());
                }
            } else if j < rest.len() && j != k {
                assert(out[j] == rest[j]);
                if k < rest.len() {
                    if j < k {
                        assert(place(rest[j].workspace) != place(rest[k].workspace));
                    } else {
                        assert(place(rest[k].workspace) != place(rest[j].workspace));
                    }
                }
            }
        }
        assert forall|i: int| 0 <= i < list.len() implies project_slot(
            out,
            (#[trigger] list[i]).workspace,
        ) < out.len() by {
            lemma_project_slot(out, list[i].workspace);
            if i < before.len() {
                assert(list[i] == before[i]);
                lemma_project_slot(rest, before[i].workspace);
                let m = project_slot(rest, before[i].workspace);
                assert(place(out[m].workspace) == place(rest[m].workspace));
            } else if k < rest.len() {
                assert(place(out[k].workspace) == place(s.workspace));
            } else {
                assert(out[rest.len() as int] == s);
            }
        }
    }
}

/// No project is listed twice; each is listed with its latest session, and the
/// latest come first.
pub proof fn each_project_is_listed_once(list: Seq<SummaryView>)
    ensures
        projects_differ(projects(list)),
        projects(list).len() <= MAX_PROJECT_HISTORY,
        forall|i: int, j: int|
            0 <= i < list.len() && 0 <= j < projects(list).len() && place((#[trigger] list[i]).workspace)
                == place((#[trigger] projects(list)[j]).workspace)
                ==> list[i].updated_at <= projects(
                list,
            )[j].updated_at,
        crate::session::manager::latest_on_top(projects(list)),
{
    broadcast use vstd::seq_lib::group_to_multiset_ensures;

    let each = by_project(list);
    let sorted = newest_first(each);
    lemma_by_project(list);
    crate::session::manager::newest_first_sorts(each);
    assert(each.no_duplicates());
    each.lemma_multiset_has_no_duplicates();
    sorted.lemma_multiset_has_no_duplicates_conv();
    assert forall|j: int| 0 <= j < sorted.len() implies each.contains(#[trigger] sorted[j]) by {
        assert(sorted.to_multiset().contains(sorted[j])) by {
            assert(sorted.contains(sorted[j]));
        }
    }
    let out = projects(list);
    assert forall|i: int, j: int| 0 <= i < j < out.len() implies place((#[trigger] out[i]).workspace)
        != place((
    #[trigger] out[j]).workspace) by {
        assert(out[i] == sorted[i] && out[j] == sorted[j]);
        assert(each.contains(sorted[i]) && each.contains(sorted[j]));
        let a = choose|a: int| 0 <= a < each.len() && each[a] == sorted[i];
        let b = choose|b: int| 0 <= b < each.len() && each[b] == sorted[j];
        assert(sorted[i] != sorted[j]);
        if a < b {
            assert(place(each[a].workspace) != place(each[b].workspace));
        } else {
            assert(place(each[b].workspace) != place(each[a].workspace));
        }
    }
    assert forall|i: int, j: int|
        0 <= i < list.len() && 0 <= j < out.len() && place((#[trigger] list[i]).workspace)
            == place((
        #[trigger] out[j]).workspace) implies list[i].updated_at <= out[j].updated_at by {
        assert(out[j] == sorted[j]);
        assert(each.contains(sorted[j]));
        let b = choose|b: int| 0 <= b < each.len() && each[b] == sorted[j];
        assert(place(list[i].workspace) == place(each[b].workspace));
    }
    assert forall|i: int, j: int| 0 <= i < j < out.len() implies (#[trigger] out[i]).updated_at >= (
    #[trigger] out[j]).updated_at by {
        assert(out[i] == sorted[i] && out[j] == sorted[j]);
    }
}

proof fn lemma_slot_is(list: Seq<SummaryView>, workspace: Seq<char>, k: int)
    requires
        0 <= k <= list.len(),
        forall|j: int| 0 <= j < k ==> place((#[trigger] list[j]).workspace) != place(workspace),
        k < list.len() ==> place(list[k].workspace) == place(workspace),
    ensures
        project_slot(list, workspace) == k,
{
    lemma_project_slot(list, workspace);
    let m = project_slot(list, workspace);
    if m < k {
        assert(place(list[m].workspace) != place(workspace));
    } else if m > k {
        assert(place(list[k].workspace) != place(workspace));
    }
}

/// The latest session of each project, in the order in which they first come.
fn latest_by_project(summaries: &Vec<SessionSummary>) -> (r: Vec<SessionSummary>)
    ensures
        summary_views(r@) == by_project(summary_views(summaries@)),
{
    let ghost all = summary_views(summaries@);
    let mut out: Vec<SessionSummary> = Vec::new();
    let mut i: usize = 0;
    assert(summary_views(out@) =~= by_project(all.take(0)));
    while i < summaries.len()
        invariant
            i <= summaries.len(),
            all == summary_views(summaries@),
            summary_views(out@) == by_project(all.take(i as int)),
        decreases summaries.len() - i,
    {
        let s = &summaries[i];
        let ghost rest = summary_views(out@);
        let mut k: usize = 0;
        while k < out.len() && !is_same_path(out[k].workspace.as_str(), s.workspace.as_str())
            invariant
                k <= out.len(),
                rest == summary_views(out@),
                forall|j: int| 0 <= j < k ==> place((#[trigger] rest[j]).workspace)
                    != place(s.workspace@),
            decreases out.len() - k,
        {
            assert(place(rest[k as int].workspace) != place(s.workspace@));
            k += 1;
        }
        proof {
            lemma_slot_is(rest, s.workspace@, k as int);
            let now = all.take(i + 1);
            assert(now.drop_last() =~= all.take(i as int));
            assert(now.last() == s@);
        }
        if k == out.len() {
            let copy = s.clone();
            assert(summary_views(out@.push(copy)) =~= rest.push(copy@));
            out.push(copy);
        } else if s.updated_at > out[k].updated_at {
            let copy = s.clone();
            assert(summary_views(out@.update(k as int, copy)) =~= rest.update(k as int, copy@));
            out.set(k, copy);
        }
        i += 1;
    }
    assert(all.take(i as int) =~= all);
    out
}

/// The projects that are listed: the latest session of each, the latest first.
pub fn project_summaries(summaries: &Vec<SessionSummary>) -> (r: Vec<SessionSummary>)
    ensures
        summary_views(r@) == projects(summary_views(summaries@)),
{
    let mut out = sort_by_age(&latest_by_project(summaries));
    let ghost sorted = summary_views(out@);
    if out.len() > MAX_PROJECT_HISTORY {
        out.truncate(MAX_PROJECT_HISTORY);
        assert(summary_views(out@) =~= sorted.take(MAX_PROJECT_HISTORY as int));
    }
    out
}

/// What a list shows of a project.
pub open spec fn project_line(h: WorkersView, s: SummaryView, index: nat) -> Seq<char> {
    (if place(s.workspace) == place(h.active) {
        "*"@
    } else {
        " "@
    }) + " "@ + padded_left(decimal(index), 2) + ". ["@ + padded(
        match status_in(h.workers, s.workspace) {
            Some(status) => status_label(status),
            None => "stopped"@,
        },
        16,
    ) + "] "@ + s.workspace
}

/// What a list of projects says.
pub open spec fn project_list_text(h: WorkersView, list: Seq<SummaryView>) -> Seq<char> {
    if list.len() == 0 {
        "No projects found."@
    } else {
        joined(
            (seq!["Projects:"@] + Seq::new(
                list.len(),
                |i: int| project_line(h, list[i], (i + 1) as nat),
            )).push("Use /project <index|path> to switch."@),
            "\n"@,
        )
    }
}

/// What a list of projects says; `summaries` are all sessions, or why they
/// could not be listed.
pub fn render_project_list(
    summaries: Result<Vec<SessionSummary>, Error>,
    workers: &Workers,
) -> (r: String)
    ensures
        match summaries {
            Ok(list) => r@ == project_list_text(workers@, projects(summary_views(list@))),
            Err(e) => r@ == "Failed to list projects: "@ + e@,
        },
{
    let summaries = match summaries {
        Ok(list) => project_summaries(&list),
        Err(error) => {
            let mut text: String = "Failed to list projects: ".to_owned();
            text.append(error.message.as_str());
            return text;
        },
    };
    let ghost all = summary_views(summaries@);
    let ghost h = workers@;
    if summaries.len() == 0 {
        return "No projects found.".to_owned();
    }
    let ghost lines_of = Seq::new(
        all.len(),
        |i: int| project_line(h, all[i], (i + 1) as nat),
    );
    let mut lines: Vec<String> = Vec::new();
    lines.push("Projects:".to_owned());
    let mut i: usize = 0;
    assert(texts(lines@) =~= seq!["Projects:"@] + lines_of.take(0));
    while i < summaries.len()
        invariant
            i <= summaries.len(),
            h == workers@,
            all == summary_views(summaries@),
            lines_of == Seq::new(
                all.len(),
                |i: int| project_line(h, all[i], (i + 1) as nat),
            ),
            texts(lines@) == seq!["Projects:"@] + lines_of.take(i as int),
        decreases summaries.len() - i,
    {
        let s = &summaries[i];
        let mut line: String = if is_same_path(s.workspace.as_str(), workers.active.as_str()) {
            "*".to_owned()
        } else {
            " ".to_owned()
        };
        line.append(" ");
        line.append(pad_left(decimal_of((i + 1) as u64).as_str(), 2).as_str());
        line.append(". [");
        let status = match workers.status(s.workspace.as_str()) {
            Some(status) => worker_status_label(status),
            None => "stopped",
        };
        line.append(pad(status, 16).as_str());
        line.append("] ");
        line.append(s.workspace.as_str());
        assert(line@ == project_line(h, s@, (i + 1) as nat));
        proof {
            lemma_texts_push(lines@, line);
            assert(lines_of[i as int] == project_line(h, s@, (i + 1) as nat));
        }
        lines.push(line);
        i += 1;
        assert(lines_of.take(i as int) =~= lines_of.take(i - 1).push(lines_of[i - 1]));
        assert(texts(lines@) =~= seq!["Projects:"@] + lines_of.take(i as int));
    }
    assert(lines_of.take(i as int) =~= lines_of);
    let last: String = "Use /project <index|path> to switch.".to_owned();
    proof {
        lemma_texts_push(lines@, last);
    }
    lines.push(last);
    join(&lines, "\n")
}

/// The project that the user wants: one that is listed, or a directory.
#[derive(Debug, PartialEq, Eq)]
pub enum ProjectTarget {
    Listed(String),
    Path(String),
}

/// The view of the project that the user wants.
pub enum TargetView {
    Listed(Seq<char>),
    Path(Seq<char>),
}

impl View for ProjectTarget {
    type V = TargetView;

    open spec fn view(&self) -> TargetView {
        match *self {
            ProjectTarget::Listed(workspace) => TargetView::Listed(workspace@),
            ProjectTarget::Path(path) => TargetView::Path(path@),
        }
    }
}

/// A path below the user's home; one that begins at the root stays as it is.
pub open spec fn below_home(home: Seq<char>, rest: Seq<char>) -> Seq<char> {
    if begins(rest, "/"@) {
        rest
    } else {
        under(home, rest)
    }
}

/// The project that a text names: by its number in the list, or by its path.
pub open spec fn target_of(target: Seq<char>, list: Seq<SummaryView>, home: Option<Seq<char>>) -> Result<
    TargetView,
    Seq<char>,
> {
    match number(target, usize::MAX as nat) {
        Some(index) => if index == 0 {
            Err("project index starts at 1"@)
        } else if index <= list.len() {
            Ok(TargetView::Listed(list[index - 1].workspace))
        } else {
            Err("project index "@ + decimal(index) + " is not available"@)
        },
        None => if begins(target, "~/"@) {
            match home {
                Some(dir) => Ok(
                    TargetView::Path(below_home(dir, target.skip("~/"@.len() as int))),
                ),
                None => Err("cannot determine the user home directory"@),
            }
        } else {
            Ok(TargetView::Path(target))
        },
    }
}

/// The project that a text names; `listed` is the list of projects.
pub fn resolve_project_target(
    target: &str,
    listed: &Vec<SessionSummary>,
    home: Option<String>,
) -> (r: Result<ProjectTarget, Error>)
    ensures
        match target_of(target@, summary_views(listed@), maybe(home)) {
            Ok(t) => r matches Ok(found) && found@ == t,
            Err(m) => r matches Err(e) && e@ == m,
        },
{
    match parse_number(target, usize::MAX as u64) {
        Some(index) => {
            if index == 0 {
                return Err(fail("project index starts at 1"));
            }
            if index <= listed.len() as u64 {
                let workspace = listed[(index - 1) as usize].workspace.clone();
                assert(place(summary_views(listed@)[index - 1].workspace) == place(workspace@));
                return Ok(ProjectTarget::Listed(workspace));
            }
            Err(fail_about("project index ", decimal_of(index).as_str(), " is not available"))
        },
        None => match strip_prefix(target, "~/") {
            Some(rest) => match home {
                Some(dir) => {
                    if starts_with(rest.as_str(), "/") {
                        return Ok(ProjectTarget::Path(rest));
                    }
                    Ok(ProjectTarget::Path(join_path(dir.as_str(), rest.as_str())))
                },
                None => Err(fail("cannot determine the user home directory")),
            },
            None => Ok(ProjectTarget::Path(target.to_owned())),
        },
    }
}

/// The views of what is known of Skills.
pub open spec fn info_views(v: Seq<SkillInfo>) -> Seq<SkillInfoView> {
    v.map_values(|i: SkillInfo| i@)
}

/// What a list shows of a Skill.
pub open spec fn skill_line(s: SkillInfoView, active: Seq<SkillView>) -> Seq<char> {
    (if is_active(active, s.name) {
        "*"@
    } else {
        " "@
    }) + " "@ + padded(s.name, 24) + " ["@ + source_name(s.source) + "] "@ + s.description
}

/// What a list of Skills says.
pub open spec fn skill_list_text(
    skills: Seq<SkillInfoView>,
    active: Seq<SkillView>,
    warnings: Seq<Seq<char>>,
) -> Seq<char> {
    let listed = if skills.len() == 0 {
        "No valid Skills discovered."@
    } else {
        joined(skills.map_values(|s: SkillInfoView| skill_line(s, active)), "\n"@)
    };
    if warnings.len() == 0 {
        listed
    } else {
        listed + "\n\nWarnings:\n"@ + joined(warnings, "\n"@)
    }
}

/// What a list of Skills says.
pub fn render_skill_list(
    skills: &Vec<SkillInfo>,
    active: &Vec<ActiveSkillRecord>,
    warnings: &Vec<String>,
) -> (r: String)
    ensures
        r@ == skill_list_text(info_views(skills@), skill_views(active@), texts(warnings@)),
{
    let ghost all = info_views(skills@);
    let ghost on = skill_views(active@);
    let ghost lines_of = all.map_values(|s: SkillInfoView| skill_line(s, on));
    let mut out: String = "No valid Skills discovered.".to_owned();
    if skills.len() > 0 {
        let mut lines: Vec<String> = Vec::new();
        let mut i: usize = 0;
        assert(texts(lines@) =~= lines_of.take(0));
        while i < skills.len()
            invariant
                i <= skills.len(),
                all == info_views(skills@),
                on == skill_views(active@),
                lines_of == all.map_values(|s: SkillInfoView| skill_line(s, on)),
                texts(lines@) == lines_of.take(i as int),
            decreases skills.len() - i,
        {
            let s = &skills[i];
            let mut line: String = if lists_skill(active, s.name.as_str()) {
                "*".to_owned()
            } else {
                " ".to_owned()
            };
            line.append(" ");
            line.append(pad(s.name.as_str(), 24).as_str());
            line.append(" [");
            line.append(s.source.to_text());
            line.append("] ");
            line.append(s.description.as_str());
            assert(line@ == skill_line(s@, on));
            proof {
                lemma_texts_push(lines@, line);
                assert(lines_of[i as int] == skill_line(s@, on));
            }
            lines.push(line);
            i += 1;
            assert(lines_of.take(i as int) =~= lines_of.take(i - 1).push(lines_of[i - 1]));
        }
        assert(lines_of.take(i as int) =~= lines_of);
        out = join(&lines, "\n");
    }
    assert(texts(warnings@).len() == warnings@.len());
    if warnings.len() > 0 {
        out.append("\n\nWarnings:\n");
        out.append(join(warnings, "\n").as_str());
    }
    out
}

/// What is said of one Skill.
pub open spec fn skill_text(s: SkillInfoView, active: bool) -> Seq<char> {
    "Skill: "@ + s.name + "\nDescription: "@ + s.description + "\nSource: "@ + source_name(s.source)
        + "\nPath: "@ + s.path + "\nDigest: "@ + s.digest + "\nModel invocation disabled: "@
        + truth(s.disable_model_invocation) + "\nActive: "@ + truth(active)
}

/// A truth value in words.
pub open spec fn truth(b: bool) -> Seq<char> {
    if b {
        "true"@
    } else {
        "false"@
    }
}

/// What is said of one Skill.
pub fn render_skill(s: &SkillInfo, active: bool) -> (r: String)
    ensures
        r@ == skill_text(s@, active),
{
    let mut out: String = "Skill: ".to_owned();
    out.append(s.name.as_str());
    out.append("\nDescription: ");
    out.append(s.description.as_str());
    out.append("\nSource: ");
    out.append(s.source.to_text());
    out.append("\nPath: ");
    out.append(s.path.as_str());
    out.append("\nDigest: ");
    out.append(s.digest.as_str());
    out.append("\nModel invocation disabled: ");
    out.append(if s.disable_model_invocation {
        "true"
    } else {
        "false"
    });
    out.append("\nActive: ");
    out.append(if active {
        "true"
    } else {
        "false"
    });
    out
}

/// What can be chosen of one model: the session's own choice, or the default.
pub open spec fn choice_of(s: ModelStatus, model: Seq<char>, model_id: Seq<char>) -> ChoiceView {
    ChoiceView {
        model: name_of(s.model),
        model_id: if model == name_of(s.model) {
            model_id
        } else {
            default_of(s.model)
        },
        current: model == name_of(s.model),
    }
}

/// The models that can be chosen.
pub fn model_choices(statuses: &[ModelStatus], current_model: &str, current_model_id: &str) -> (r:
    Vec<ModelChoice>)
    ensures
        choice_views(r@) == statuses@.map_values(
            |s: ModelStatus| choice_of(s, current_model@, current_model_id@),
        ),
{
    let ghost all = statuses@.map_values(
        |s: ModelStatus| choice_of(s, current_model@, current_model_id@),
    );
    let mut out: Vec<ModelChoice> = Vec::new();
    let mut i: usize = 0;
    assert(choice_views(out@) =~= all.take(0));
    while i < statuses.len()
        invariant
            i <= statuses@.len(),
            all == statuses@.map_values(
                |s: ModelStatus| choice_of(s, current_model@, current_model_id@),
            ),
            choice_views(out@) == all.take(i as int),
        decreases statuses@.len() - i,
    {
        let model = statuses[i].model;
        let current = same(current_model, model.id());
        let choice = ModelChoice {
            model: model.id().to_owned(),
            model_id: if current {
                current_model_id.to_owned()
            } else {
                model.default_model_id().to_owned()
            },
            current,
        };
        assert(choice@ =~= all[i as int]);
        assert(choice_views(out@.push(choice)) =~= choice_views(out@).push(choice@));
        out.push(choice);
        i += 1;
        assert(all.take(i as int) =~= all.take(i - 1).push(all[i - 1]));
    }
    assert(all.take(i as int) =~= all);
    out
}

/// The models of a service that can be chosen: those that were listed, where it
/// can be used, and its default model otherwise.
pub open spec fn offered_ids(s: ModelStatus, listed: Seq<Seq<char>>) -> Seq<Seq<char>> {
    if s.logged_in && listed.len() > 0 {
        listed
    } else {
        seq![default_of(s.model)]
    }
}

/// What can be chosen of one service.
pub open spec fn service_choices(
    m: Model,
    ids: Seq<Seq<char>>,
    model: Seq<char>,
    model_id: Seq<char>,
) -> Seq<ChoiceView> {
    ids.map_values(
        |id: Seq<char>|
            ChoiceView {
                model: name_of(m),
                model_id: id,
                current: model == name_of(m) && model_id == id,
            },
    )
}

/// What can be chosen of all services.
pub open spec fn catalog_choices(
    statuses: Seq<ModelStatus>,
    listed: Seq<Seq<Seq<char>>>,
    model: Seq<char>,
    model_id: Seq<char>,
) -> Seq<ChoiceView>
    decreases statuses.len(),
{
    if statuses.len() == 0 {
        Seq::empty()
    } else {
        let s = statuses.last();
        catalog_choices(statuses.drop_last(), listed, model, model_id) + service_choices(
            s.model,
            offered_ids(s, listed[statuses.len() - 1]),
            model,
            model_id,
        )
    }
}

/// The lists of a list.
pub open spec fn text_lists(v: Seq<Vec<String>>) -> Seq<Seq<Seq<char>>> {
    v.map_values(|l: Vec<String>| texts(l@))
}

/// The models that can be chosen, with those that services listed: `catalogs`
/// holds one list for each status, empty where there is none.
pub fn model_choices_with_catalog(
    statuses: &[ModelStatus],
    catalogs: &Vec<Vec<String>>,
    current_model: &str,
    current_model_id: &str,
) -> (r: Vec<ModelChoice>)
    requires
        catalogs@.len() == statuses@.len(),
    ensures
        choice_views(r@) == catalog_choices(
            statuses@,
            text_lists(catalogs@),
            current_model@,
            current_model_id@,
        ),
{
    let ghost listed = text_lists(catalogs@);
    let mut out: Vec<ModelChoice> = Vec::new();
    let mut i: usize = 0;
    assert(choice_views(out@) =~= catalog_choices(
        statuses@.take(0),
        listed,
        current_model@,
        current_model_id@,
    ));
    while i < statuses.len()
        invariant
            i <= statuses@.len(),
            catalogs@.len() == statuses@.len(),
            listed == text_lists(catalogs@),
            choice_views(out@) == catalog_choices(
                statuses@.take(i as int),
                listed,
                current_model@,
                current_model_id@,
            ),
        decreases statuses@.len() - i,
    {
        let s = statuses[i];
        let ghost before = choice_views(out@);
        let ids: Vec<String> = if s.logged_in && catalogs[i].len() > 0 {
            copy_list(&catalogs[i])
        } else {
            let mut one: Vec<String> = Vec::new();
            one.push(s.model.default_model_id().to_owned());
            assert(texts(one@) =~= seq![default_of(s.model)]);
            one
        };
        let ghost more = service_choices(s.model, texts(ids@), current_model@, current_model_id@);
        proof {
            assert(listed[i as int] == texts(catalogs@[i as int]@));
            assert(listed[i as int].len() == catalogs@[i as int]@.len());
            assert(texts(ids@) == offered_ids(s, listed[i as int]));
        }
        let mut k: usize = 0;
        assert(choice_views(out@) =~= before + more.take(0));
        while k < ids.len()
            invariant
                k <= ids.len(),
                more == service_choices(
                    s.model,
                    texts(ids@),
                    current_model@,
                    current_model_id@,
                ),
                choice_views(out@) == before + more.take(k as int),
            decreases ids.len() - k,
        {
            let choice = ModelChoice {
                model: s.model.id().to_owned(),
                model_id: ids[k].clone(),
                current: same(current_model, s.model.id()) && same(
                    current_model_id,
                    ids[k].as_str(),
                ),
            };
            assert(texts(ids@)[k as int] == ids@[k as int]@);
            assert(choice@ =~= more[k as int]);
            assert(choice_views(out@.push(choice)) =~= choice_views(out@).push(choice@));
            out.push(choice);
            k += 1;
            assert(before + more.take(k as int) =~= (before + more.take(k - 1)).push(more[k - 1]));
        }
        assert(more.take(k as int) =~= more);
        proof {
            let now = statuses@.take(i + 1);
            assert(now.drop_last() =~= statuses@.take(i as int));
            assert(now.last() == s);
        }
        i += 1;
    }
    assert(statuses@.take(i as int) =~= statuses@);
    out
}

} // verus!
