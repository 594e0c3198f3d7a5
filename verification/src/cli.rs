//! What the command line decides and says.
use crate::error::{fail, fail_about, Error};
use crate::ids::hyphenated;
use crate::model::{
    authentication_name, authentication_named, authentication_of, default_of, model_named, name_of,
    protocol_name, protocol_named, protocol_of, AuthenticationMode, Model, ModelStatus,
    ProviderProtocol,
};
use crate::paths::{is_same_path, same_path};
use crate::pieces::{
    joined_parts_stand_in_order, lemma_both, lemma_more, lemma_within, stand_in_order,
};
use crate::session::manager::summary_views;
use crate::session::model::{SessionSummary, SummaryView};
use crate::text::{
    blank, decimal, decimal_of, first, is_blank, join, joined, lemma_texts_push, lists, lowered,
    maybe, pad, pad_left, padded, padded_left, repeated, same, split, split_on, take_chars, texts,
    to_lower, trim, trimmed,
};
use vstd::prelude::*;

verus! {

/// How much of a session's identifier is listed, in characters.
pub const ID_SHOWN: usize = 12;

/// How much of a time is listed, in characters.
pub const TIME_SHOWN: usize = 20;

/// A moment, given in nanoseconds since the epoch, as
/// `time::OffsetDateTime::format` writes it by RFC 3339; none where it cannot.
pub uninterp spec fn rfc3339_text(nanos: i128) -> Option<Seq<char>>;

/// `time::OffsetDateTime::from_unix_timestamp_nanos`, and `format` by
/// `time::format_description::well_known::Rfc3339`.
#[verifier::external_body]
pub(crate) fn rfc3339_of(nanos: i128) -> (r: Option<String>)
    ensures
        maybe(r) == rfc3339_text(nanos),
{
    let moment = time::OffsetDateTime::from_unix_timestamp_nanos(nanos).ok()?;
    moment.format(&time::format_description::well_known::Rfc3339).ok()
}

/// A moment, given in nanoseconds since the epoch, as
/// `time::OffsetDateTime`'s `to_string` writes it; none where there is no such
/// moment.
pub uninterp spec fn moment_text(nanos: i128) -> Option<Seq<char>>;

/// `time::OffsetDateTime::from_unix_timestamp_nanos`, and its `to_string`.
#[verifier::external_body]
pub(crate) fn moment_text_of(nanos: i128) -> (r: Option<String>)
    ensures
        maybe(r) == moment_text(nanos),
{
    Some(time::OffsetDateTime::from_unix_timestamp_nanos(nanos).ok()?.to_string())
}

/// The user has confirmed something.
pub open spec fn says_yes(answer: Seq<char>) -> bool {
    let s = lowered(trimmed(answer));
    s == "y"@ || s == "yes"@
}

/// Whether the user has confirmed something.
pub fn confirms(answer: &str) -> (r: bool)
    ensures
        r == says_yes(answer@),
{
    let s = to_lower(trim(answer).as_str());
    same(s.as_str(), "y") || same(s.as_str(), "yes")
}

/// A path leads through a build directory.
pub open spec fn built_here(path: Seq<char>) -> bool {
    split_on(path, '/').contains("target"@)
}

/// Whether a program lies in a build directory.
pub fn is_development_binary(path: &str) -> (r: bool)
    ensures
        r == built_here(path@),
{
    lists(&split(path, '/'), "target")
}

/// Checks that a program, given by its path, is an installed one: not one of a
/// build directory, and under the right name.
pub fn check_executable(path: &str) -> (r: Result<(), Error>)
    ensures
        if built_here(path@) {
            r matches Err(e) && e@ == path@
                + " is a development binary; run upgrade/uninstall on an installed Noya binary"@
        } else if split_on(path@, '/').last() != "noya"@ {
            r matches Err(e) && e@ == "current executable is not a Noya binary: "@ + path@
        } else {
            r is Ok
        },
{
    if is_development_binary(path) {
        let mut text: String = path.to_owned();
        text.append(
            " is a development binary; run upgrade/uninstall on an installed Noya binary",
        );
        return Err(Error { message: text });
    }
    let parts = split(path, '/');
    proof {
        crate::text::lemma_split_nonempty(path@, '/');
        assert(texts(parts@).len() == parts@.len());
        assert(texts(parts@).last() == parts@[parts@.len() - 1]@);
    }
    if !same(parts[parts.len() - 1].as_str(), "noya") {
        return Err(crate::error::fail_with("current executable is not a Noya binary: ", path));
    }
    Ok(())
}

/// Where the installer of a repository lies.
pub fn installer_url(repository: &str) -> (r: String)
    ensures
        r@ == "https://raw.githubusercontent.com/"@ + repository@ + "/main/scripts/install.sh"@,
{
    let mut out: String = "https://raw.githubusercontent.com/".to_owned();
    out.append(repository);
    out.append("/main/scripts/install.sh");
    out
}

/// How a service is spoken to after a login: as the user says, or as its model
/// does by default.
pub open spec fn settings_for(
    model: Model,
    protocol: Option<Seq<char>>,
    authentication: Option<Seq<char>>,
) -> Result<(ProviderProtocol, AuthenticationMode), Seq<char>> {
    if protocol is Some && protocol_named(protocol->0) is None {
        Err(
            "unsupported protocol '"@ + protocol->0
                + "'; supported protocols: openai-compatible, anthropic-messages"@,
        )
    } else if authentication is Some && authentication_named(authentication->0) is None {
        Err(
            "unsupported authentication mode '"@ + authentication->0
                + "'; supported modes: bearer, x-api-key"@,
        )
    } else {
        Ok(
            (
                match protocol {
                    Some(name) => protocol_named(name)->0,
                    None => protocol_of(model),
                },
                match authentication {
                    Some(name) => authentication_named(name)->0,
                    None => authentication_of(model),
                },
            ),
        )
    }
}

/// How a service is spoken to after a login.
pub fn login_settings(
    model: Model,
    protocol: Option<String>,
    authentication: Option<String>,
) -> (r: Result<(ProviderProtocol, AuthenticationMode), Error>)
    ensures
        match settings_for(model, maybe(protocol), maybe(authentication)) {
            Ok(settings) => r == Ok::<(ProviderProtocol, AuthenticationMode), Error>(settings),
            Err(m) => r matches Err(e) && e@ == m,
        },
{
    let protocol = match protocol {
        Some(name) => match ProviderProtocol::parse(name.as_str()) {
            Some(protocol) => protocol,
            None => {
                return Err(
                    fail_about(
                        "unsupported protocol '",
                        name.as_str(),
                        "'; supported protocols: openai-compatible, anthropic-messages",
                    ),
                );
            },
        },
        None => model.default_protocol(),
    };
    let authentication = match authentication {
        Some(name) => match AuthenticationMode::parse(name.as_str()) {
            Some(authentication) => authentication,
            None => {
                return Err(
                    fail_about(
                        "unsupported authentication mode '",
                        name.as_str(),
                        "'; supported modes: bearer, x-api-key",
                    ),
                );
            },
        },
        None => model.default_authentication(),
    };
    Ok((protocol, authentication))
}

/// The address that the user gives, or the one that stands for it.
pub fn given_base_url(input: &str, default_base_url: &str) -> (r: String)
    ensures
        r@ == (if blank(input@) {
            default_base_url@
        } else {
            trimmed(input@)
        }),
{
    if is_blank(input) {
        default_base_url.to_owned()
    } else {
        trim(input)
    }
}

/// What is said after a login.
pub fn login_text(
    model: Model,
    protocol: ProviderProtocol,
    authentication: AuthenticationMode,
    path: &str,
) -> (r: String)
    ensures
        r@ == "Logged in to "@ + name_of(model) + " using "@ + protocol_name(protocol) + " and "@
            + authentication_name(authentication) + ". Credential saved to "@ + path@ + "."@,
{
    let mut out: String = "Logged in to ".to_owned();
    out.append(model.id());
    out.append(" using ");
    out.append(protocol.name());
    out.append(" and ");
    out.append(authentication.name());
    out.append(". Credential saved to ");
    out.append(path);
    out.append(".");
    out
}

/// The model that a logout is about: the one that is named, or the active one.
pub fn logout_model(named: Option<Model>, active: Option<Model>) -> (r: Result<Model, Error>)
    ensures
        match (named, active) {
            (Some(m), _) => r == Ok::<Model, Error>(m),
            (None, Some(m)) => r == Ok::<Model, Error>(m),
            (None, None) => r matches Err(e) && e@
                == "no model selected; run `noya logout <model>` (supported: openai, deepseek, qwen, kimi)"@,
        },
{
    match named {
        Some(model) => Ok(model),
        None => match active {
            Some(model) => Ok(model),
            None => Err(
                fail(
                    "no model selected; run `noya logout <model>` (supported: openai, deepseek, qwen, kimi)",
                ),
            ),
        },
    }
}

/// What is said after a logout; `removed` says whether there was anything to
/// forget.
pub fn logout_text(model: Model, removed: bool) -> (r: String)
    ensures
        r@ == (if removed {
            "Logged out from "@
        } else {
            "No stored credential for "@
        }) + name_of(model) + "."@,
{
    let mut out: String = if removed {
        "Logged out from ".to_owned()
    } else {
        "No stored credential for ".to_owned()
    };
    out.append(model.id());
    out.append(".");
    out
}

/// How a model stands, in words.
pub open spec fn standing(s: ModelStatus) -> Seq<char> {
    if s.active {
        "active"@
    } else if s.logged_in {
        "logged in"@
    } else {
        "not logged in"@
    }
}

/// The longest of the texts of models, and of their heading.
pub open spec fn widest(names: Seq<Seq<char>>, heading: nat) -> nat
    decreases names.len(),
{
    if names.len() == 0 {
        heading
    } else {
        let rest = widest(names.drop_last(), heading);
        if names.last().len() > rest {
            names.last().len()
        } else {
            rest
        }
    }
}

/// The names of models.
pub open spec fn status_names(statuses: Seq<ModelStatus>) -> Seq<Seq<char>> {
    statuses.map_values(|s: ModelStatus| name_of(s.model))
}

/// The default models of services.
pub open spec fn status_ids(statuses: Seq<ModelStatus>) -> Seq<Seq<char>> {
    statuses.map_values(|s: ModelStatus| default_of(s.model))
}

/// A row of the list of models.
pub open spec fn model_row(
    name: Seq<char>,
    id: Seq<char>,
    state: Seq<char>,
    widths: (nat, nat),
) -> Seq<char> {
    padded(name, widths.0) + "  "@ + padded(id, widths.1) + "  "@ + state
}

/// The list of models: a heading, and a row for each, in columns.
pub open spec fn models_text(statuses: Seq<ModelStatus>) -> Seq<char> {
    let widths = (
        widest(status_names(statuses), "MODEL"@.len()),
        widest(status_ids(statuses), "MODEL ID"@.len()),
    );
    joined(
        seq![model_row("MODEL"@, "MODEL ID"@, "STATUS"@, widths)] + statuses.map_values(
            |s: ModelStatus| model_row(name_of(s.model), default_of(s.model), standing(s), widths),
        ),
        "\n"@,
    )
}

fn row_of_model(name: &str, id: &str, state: &str, name_width: usize, id_width: usize) -> (r: String)
    ensures
        r@ == model_row(name@, id@, state@, (name_width as nat, id_width as nat)),
{
    let mut out: String = pad(name, name_width);
    out.append("  ");
    out.append(pad(id, id_width).as_str());
    out.append("  ");
    out.append(state);
    out
}

/// The list of models.
pub fn render_models(statuses: &[ModelStatus]) -> (r: String)
    ensures
        r@ == models_text(statuses@),
{
    let ghost all = statuses@;
    let mut name_width: usize = "MODEL".unicode_len();
    let mut id_width: usize = "MODEL ID".unicode_len();
    let mut i: usize = 0;
    assert(status_names(all).take(0) =~= Seq::<Seq<char>>::empty());
    assert(status_ids(all).take(0) =~= Seq::<Seq<char>>::empty());
    while i < statuses.len()
        invariant
            i <= statuses@.len(),
            all == statuses@,
            name_width == widest(status_names(all).take(i as int), "MODEL"@.len()),
            id_width == widest(status_ids(all).take(i as int), "MODEL ID"@.len()),
        decreases statuses@.len() - i,
    {
        let name_len: usize = statuses[i].model.id().unicode_len();
        let id_len: usize = statuses[i].model.default_model_id().unicode_len();
        proof {
            let names = status_names(all).take(i + 1);
            assert(names.drop_last() =~= status_names(all).take(i as int));
            assert(names.last() == name_of(all[i as int].model));
            let ids = status_ids(all).take(i + 1);
            assert(ids.drop_last() =~= status_ids(all).take(i as int));
            assert(ids.last() == default_of(all[i as int].model));
        }
        if name_len > name_width {
            name_width = name_len;
        }
        if id_len > id_width {
            id_width = id_len;
        }
        i += 1;
    }
    assert(status_names(all).take(i as int) =~= status_names(all));
    assert(status_ids(all).take(i as int) =~= status_ids(all));
    let ghost widths = (name_width as nat, id_width as nat);
    let ghost rows = all.map_values(
        |s: ModelStatus| model_row(name_of(s.model), default_of(s.model), standing(s), widths),
    );
    let heading = row_of_model("MODEL", "MODEL ID", "STATUS", name_width, id_width);
    let ghost head = seq![heading@];
    let mut lines: Vec<String> = Vec::new();
    lines.push(heading);
    assert(texts(lines@) =~= head + rows.take(0));
    let mut k: usize = 0;
    while k < statuses.len()
        invariant
            k <= statuses@.len(),
            all == statuses@,
            widths == (name_width as nat, id_width as nat),
            rows == all.map_values(
                |s: ModelStatus|
                    model_row(name_of(s.model), default_of(s.model), standing(s), widths),
            ),
            texts(lines@) == head + rows.take(k as int),
        decreases statuses@.len() - k,
    {
        let s = statuses[k];
        let state = if s.active {
            "active"
        } else if s.logged_in {
            "logged in"
        } else {
            "not logged in"
        };
        let row = row_of_model(
            s.model.id(),
            s.model.default_model_id(),
            state,
            name_width,
            id_width,
        );
        assert(row@ == rows[k as int]);
        proof {
            lemma_texts_push(lines@, row);
        }
        lines.push(row);
        k += 1;
        assert(head + rows.take(k as int) =~= (head + rows.take(k - 1)).push(rows[k - 1]));
    }
    assert(rows.take(k as int) =~= rows);
    join(&lines, "\n")
}

/// When a session was last changed, in words.
pub open spec fn updated_text(nanos: i128) -> Seq<char> {
    match rfc3339_text(nanos) {
        Some(text) => text,
        None => match moment_text(nanos) {
            Some(text) => text,
            None => Seq::empty(),
        },
    }
}

/// A row of the list of sessions.
pub open spec fn session_row(
    id: Seq<char>,
    updated: Seq<char>,
    model: Seq<char>,
    turns: Seq<char>,
    title: Seq<char>,
) -> Seq<char> {
    padded(id, 12) + "  "@ + padded(updated, 20) + "  "@ + padded(model, 10) + "  "@ + padded_left(
        turns,
        5,
    ) + "  "@ + title
}

/// The row of one session.
pub open spec fn row_of_session(s: SummaryView, updated: Seq<char>) -> Seq<char> {
    session_row(
        first(hyphenated(s.session_id.0), ID_SHOWN as nat),
        first(updated, TIME_SHOWN as nat),
        s.model,
        decimal(s.completed_turns as nat),
        s.title,
    )
}

/// The list of sessions: a heading, and a row for each, in columns; `updated`
/// holds when each was last changed, in words.
pub open spec fn sessions_text(list: Seq<SummaryView>, updated: Seq<Seq<char>>) -> Seq<char> {
    joined(
        seq![session_row("SESSION"@, "UPDATED"@, "MODEL"@, "TURNS"@, "TITLE"@)] + Seq::new(
            list.len(),
            |i: int| row_of_session(list[i], updated[i]),
        ),
        "\n"@,
    )
}

fn write_session_row(id: &str, updated: &str, model: &str, turns: &str, title: &str) -> (r: String)
    ensures
        r@ == session_row(id@, updated@, model@, turns@, title@),
{
    let mut out: String = pad(id, 12);
    out.append("  ");
    out.append(pad(updated, 20).as_str());
    out.append("  ");
    out.append(pad(model, 10).as_str());
    out.append("  ");
    out.append(pad_left(turns, 5).as_str());
    out.append("  ");
    out.append(title);
    out
}

/// The list of sessions, with when each was last changed, in words.
pub fn render_sessions_with(summaries: &Vec<SessionSummary>, updated: &Vec<String>) -> (r: String)
    requires
        updated@.len() == summaries@.len(),
    ensures
        r@ == sessions_text(summary_views(summaries@), texts(updated@)),
{
    let ghost list = summary_views(summaries@);
    let ghost times = texts(updated@);
    let ghost rows = Seq::new(list.len(), |i: int| row_of_session(list[i], times[i]));
    let heading = write_session_row("SESSION", "UPDATED", "MODEL", "TURNS", "TITLE");
    let ghost head = seq![heading@];
    let mut lines: Vec<String> = Vec::new();
    lines.push(heading);
    assert(texts(lines@) =~= head + rows.take(0));
    let mut i: usize = 0;
    while i < summaries.len()
        invariant
            i <= summaries.len(),
            updated@.len() == summaries@.len(),
            list == summary_views(summaries@),
            times == texts(updated@),
            rows == Seq::new(list.len(), |i: int| row_of_session(list[i], times[i])),
            texts(lines@) == head + rows.take(i as int),
        decreases summaries.len() - i,
    {
        let s = &summaries[i];
        let row = write_session_row(
            take_chars(s.session_id.to_text().as_str(), ID_SHOWN).as_str(),
            take_chars(updated[i].as_str(), TIME_SHOWN).as_str(),
            s.model.as_str(),
            decimal_of(s.completed_turns as u64).as_str(),
            s.title.as_str(),
        );
        assert(list[i as int] == s@);
        assert(row@ == rows[i as int]);
        proof {
            lemma_texts_push(lines@, row);
        }
        lines.push(row);
        i += 1;
        assert(head + rows.take(i as int) =~= (head + rows.take(i - 1)).push(rows[i - 1]));
    }
    assert(rows.take(i as int) =~= rows);
    join(&lines, "\n")
}

/// The list of sessions.
pub fn render_sessions(summaries: &Vec<SessionSummary>) -> (r: String)
    ensures
        r@ == sessions_text(
            summary_views(summaries@),
            summary_views(summaries@).map_values(|s: SummaryView| updated_text(s.updated_at)),
        ),
{
    let ghost all = summary_views(summaries@).map_values(
        |s: SummaryView| updated_text(s.updated_at),
    );
    let mut updated: Vec<String> = Vec::new();
    let mut i: usize = 0;
    assert(texts(updated@) =~= all.take(0));
    while i < summaries.len()
        invariant
            i <= summaries.len(),
            updated@.len() == i,
            all == summary_views(summaries@).map_values(
                |s: SummaryView| updated_text(s.updated_at),
            ),
            texts(updated@) == all.take(i as int),
        decreases summaries.len() - i,
    {
        let nanos = summaries[i].updated_at;
        let text = match rfc3339_of(nanos) {
            Some(text) => text,
            None => match moment_text_of(nanos) {
                Some(text) => text,
                None => String::new(),
            },
        };
        assert(text@ =~= all[i as int]);
        proof {
            lemma_texts_push(updated@, text);
        }
        updated.push(text);
        i += 1;
        assert(all.take(i as int) =~= all.take(i - 1).push(all[i - 1]));
    }
    assert(all.take(i as int) =~= all);
    render_sessions_with(summaries, &updated)
}

/// The sessions of a list that are put away, or those that are not.
pub fn keep_archived(summaries: Vec<SessionSummary>, archived: bool) -> (r: Vec<SessionSummary>)
    ensures
        summary_views(r@) == summary_views(summaries@).filter(
            |s: SummaryView| s.archived == archived,
        ),
{
    let ghost all = summary_views(summaries@);
    let ghost keep = |s: SummaryView| s.archived == archived;
    let mut out: Vec<SessionSummary> = Vec::new();
    assert(summary_views(out@) =~= all.take(0).filter(keep));
    for summary in it: summaries
        invariant
            it.seq() == summaries@,
            all == summary_views(summaries@),
            keep == (|s: SummaryView| s.archived == archived),
            summary_views(out@) == all.take(it.index() as int).filter(keep),
    {
        let ghost i = it.index() as int;
        proof {
            let now = all.take(i + 1);
            assert(now.drop_last() =~= all.take(i));
            assert(now.last() == summary@);
            reveal(Seq::filter);
        }
        if summary.archived == archived {
            assert(summary_views(out@.push(summary)) =~= summary_views(out@).push(summary@));
            out.push(summary);
        }
    }
    assert(all.take(all.len() as int) =~= all);
    out
}

/// Checks that a session that is resumed belongs to the workspace that the user
/// names.
pub fn check_workspace(session_workspace: &str, named: Option<&str>) -> (r: Result<(), Error>)
    ensures
        match named {
            Some(workspace) => if same_path(workspace@, session_workspace@) {
                r is Ok
            } else {
                r matches Err(e) && e@ == "session workspace is "@ + session_workspace@
                    + "; explicit workspace is "@ + workspace@
            },
            None => r is Ok,
        },
{
    match named {
        Some(workspace) => {
            if is_same_path(workspace, session_workspace) {
                return Ok(());
            }
            let mut text: String = "session workspace is ".to_owned();
            text.append(session_workspace);
            text.append("; explicit workspace is ");
            text.append(workspace);
            Err(Error { message: text })
        },
        None => Ok(()),
    }
}

/// The service and the model that a resumed session uses: what the user names
/// comes before what the session used, and the session's model goes with its
/// service.
pub open spec fn resumed_with(
    session_model: Seq<char>,
    session_model_id: Seq<char>,
    model: Option<Model>,
    model_id: Option<Seq<char>>,
) -> Result<(Model, Option<Seq<char>>), Seq<char>> {
    match model_named(session_model) {
        None => Err("session references an unsupported model"@),
        Some(own) => Ok(
            (
                match model {
                    Some(m) => m,
                    None => own,
                },
                match model_id {
                    Some(id) => Some(id),
                    None => if model is Some && model->0 != own {
                        None
                    } else {
                        Some(session_model_id)
                    },
                },
            ),
        ),
    }
}

/// The service and the model that a resumed session uses.
pub fn resume_choice(
    session_model: &str,
    session_model_id: String,
    model: Option<Model>,
    model_id: Option<String>,
) -> (r: Result<(Model, Option<String>), Error>)
    ensures
        match resumed_with(session_model@, session_model_id@, model, maybe(model_id)) {
            Ok(choice) => r matches Ok(found) && found.0 == choice.0 && maybe(found.1) == choice.1,
            Err(m) => r matches Err(e) && e@ == m,
        },
{
    let own = match Model::parse(session_model) {
        Ok(model) => model,
        Err(_) => {
            return Err(fail("session references an unsupported model"));
        },
    };
    let selected = match model {
        Some(model) => model,
        None => own,
    };
    let id = match model_id {
        Some(id) => Some(id),
        None => if selected != own {
            None
        } else {
            Some(session_model_id)
        },
    };
    Ok((selected, id))
}

/// The list of models has one row for each model, in order, under a heading; a row
/// holds the name, the identifier and how the model stands.
pub proof fn every_model_has_its_row(statuses: Seq<ModelStatus>)
    ensures
        exists|rows: Seq<Seq<char>>|
            {
                &&& #[trigger] stand_in_order(models_text(statuses), rows)
                &&& rows.len() == statuses.len() + 1
                &&& forall|i: int|
                    0 <= i < statuses.len() ==> stand_in_order(
                        rows[i + 1],
                        seq![
                            name_of((#[trigger] statuses[i]).model),
                            default_of(statuses[i].model),
                            standing(statuses[i]),
                        ],
                    )
            },
{
    let widths = (
        widest(status_names(statuses), "MODEL"@.len()),
        widest(status_ids(statuses), "MODEL ID"@.len()),
    );
    let rows = seq![model_row("MODEL"@, "MODEL ID"@, "STATUS"@, widths)] + statuses.map_values(
        |s: ModelStatus| model_row(name_of(s.model), default_of(s.model), standing(s), widths),
    );
    joined_parts_stand_in_order(rows, "\n"@);
    assert(stand_in_order(models_text(statuses), rows));
    assert forall|i: int| 0 <= i < statuses.len() implies stand_in_order(
        rows[i + 1],
        seq![
            name_of((#[trigger] statuses[i]).model),
            default_of(statuses[i].model),
            standing(statuses[i]),
        ],
    ) by {
        lemma_model_row(
            name_of(statuses[i].model),
            default_of(statuses[i].model),
            standing(statuses[i]),
            widths,
        );
    }
}

/// The state that a model is listed with is the one that it is in.
pub proof fn a_model_stands_as_it_is(s: ModelStatus)
    ensures
        standing(s) == "active"@ <==> s.active,
        standing(s) == "not logged in"@ <==> !s.active && !s.logged_in,
{
    reveal_strlit("active");
    reveal_strlit("logged in");
    reveal_strlit("not logged in");
    assert("active"@.len() == 6);
    assert("logged in"@.len() == 9);
    assert("not logged in"@.len() == 13);
}

proof fn lemma_padded(s: Seq<char>, width: nat)
    ensures
        stand_in_order(padded(s, width), seq![s]),
        stand_in_order(padded_left(s, width), seq![s]),
{
    let none = Seq::<char>::empty();
    lemma_within(none, s, none);
    assert(none + s + none =~= s);
    if s.len() < width {
        let gap = repeated(seq![' '], (width - s.len()) as nat);
        lemma_within(none, s, gap);
        lemma_within(gap, s, none);
        assert(none + s + gap =~= padded(s, width));
        assert(gap + s + none =~= padded_left(s, width));
    }
}

proof fn lemma_model_row(name: Seq<char>, id: Seq<char>, state: Seq<char>, widths: (nat, nat))
    ensures
        stand_in_order(model_row(name, id, state, widths), seq![name, id, state]),
{
    lemma_padded(name, widths.0);
    lemma_padded(id, widths.1);
    lemma_padded(state, 0);
    let a = padded(name, widths.0) + "  "@;
    let b = padded(id, widths.1) + "  "@;
    lemma_more(padded(name, widths.0), seq![name], "  "@);
    lemma_more(padded(id, widths.1), seq![id], "  "@);
    lemma_both(a, seq![name], b, seq![id]);
    lemma_both(a + b, seq![name] + seq![id], state, seq![state]);
    assert(seq![name] + seq![id] + seq![state] =~= seq![name, id, state]);
    assert(a + b + state =~= model_row(name, id, state, widths));
}

/// The list of sessions has one row for each session, in order, under a heading; a row
/// holds how the identifier begins, the time, the model, how many turns were completed
/// and the whole title.
pub proof fn every_session_has_its_row(list: Seq<SummaryView>, updated: Seq<Seq<char>>)
    ensures
        exists|rows: Seq<Seq<char>>|
            {
                &&& #[trigger] stand_in_order(sessions_text(list, updated), rows)
                &&& rows.len() == list.len() + 1
                &&& forall|i: int|
                    0 <= i < list.len() ==> stand_in_order(
                        rows[i + 1],
                        seq![
                            first(hyphenated((#[trigger] list[i]).session_id.0), ID_SHOWN as nat),
                            first(updated[i], TIME_SHOWN as nat),
                            list[i].model,
                            decimal(list[i].completed_turns as nat),
                            list[i].title,
                        ],
                    )
            },
{
    let rows = seq![session_row("SESSION"@, "UPDATED"@, "MODEL"@, "TURNS"@, "TITLE"@)] + Seq::new(
        list.len(),
        |i: int| row_of_session(list[i], updated[i]),
    );
    joined_parts_stand_in_order(rows, "\n"@);
    assert(stand_in_order(sessions_text(list, updated), rows)) by {
        assert(sessions_text(list, updated) == joined(rows, "\n"@));
    }
    assert forall|i: int| 0 <= i < list.len() implies stand_in_order(
        rows[i + 1],
        seq![
            first(hyphenated((#[trigger] list[i]).session_id.0), ID_SHOWN as nat),
            first(updated[i], TIME_SHOWN as nat),
            list[i].model,
            decimal(list[i].completed_turns as nat),
            list[i].title,
        ],
    ) by {
        lemma_session_row(
            first(hyphenated(list[i].session_id.0), ID_SHOWN as nat),
            first(updated[i], TIME_SHOWN as nat),
            list[i].model,
            decimal(list[i].completed_turns as nat),
            list[i].title,
        );
    }
}

proof fn lemma_session_row(
    id: Seq<char>,
    updated: Seq<char>,
    model: Seq<char>,
    turns: Seq<char>,
    title: Seq<char>,
)
    ensures
        stand_in_order(
            session_row(id, updated, model, turns, title),
            seq![id, updated, model, turns, title],
        ),
{
    lemma_padded(id, 12);
    lemma_padded(updated, 20);
    lemma_padded(model, 10);
    lemma_padded(turns, 5);
    lemma_padded(title, 0);
    let a = padded(id, 12) + "  "@;
    let b = padded(updated, 20) + "  "@;
    let c = padded(model, 10) + "  "@;
    let d = padded_left(turns, 5) + "  "@;
    lemma_more(padded(id, 12), seq![id], "  "@);
    lemma_more(padded(updated, 20), seq![updated], "  "@);
    lemma_more(padded(model, 10), seq![model], "  "@);
    lemma_more(padded_left(turns, 5), seq![turns], "  "@);
    lemma_both(a, seq![id], b, seq![updated]);
    lemma_both(a + b, seq![id] + seq![updated], c, seq![model]);
    lemma_both(a + b + c, seq![id] + seq![updated] + seq![model], d, seq![turns]);
    lemma_both(
        a + b + c + d,
        seq![id] + seq![updated] + seq![model] + seq![turns],
        title,
        seq![title],
    );
    assert(seq![id] + seq![updated] + seq![model] + seq![turns] + seq![title] =~= seq![
        id,
        updated,
        model,
        turns,
        title,
    ]);
    assert(a + b + c + d + title =~= session_row(id, updated, model, turns, title));
}

/// A session goes on with its own model unless another is asked for. The identifier is
/// the one that is asked for; else the session's own, as long as its model stays.
pub proof fn a_session_goes_on_with_its_model(
    session_model: Seq<char>,
    session_model_id: Seq<char>,
    model: Option<Model>,
    model_id: Option<Seq<char>>,
)
    ensures
        resumed_with(session_model, session_model_id, model, model_id) is Ok <==> model_named(
            session_model,
        ) is Some,
        resumed_with(session_model, session_model_id, model, model_id) matches Ok(r) ==> {
            &&& model matches Some(m) ==> r.0 == m
            &&& model is None ==> Some(r.0) == model_named(session_model)
            &&& model_id is Some ==> r.1 == model_id
            &&& model_id is None && Some(r.0) == model_named(session_model) ==> r.1 == Some(
                session_model_id,
            )
            &&& model_id is None && Some(r.0) != model_named(session_model) ==> r.1 is None
        },
{
}

} // verus!
