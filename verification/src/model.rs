//! Supported models, and what is known of the user's access to them.
use crate::error::{fail, Error};
use crate::paths::{join_path, under};
use crate::text::{
    blank, copy_list, is_blank, lowered, maybe, same, strip_end, stripped_end, texts, to_lower,
    trim, trimmed,
};
use vstd::prelude::*;

verus! {

/// A service whose models can be used.
#[derive(Debug, Clone, Copy, PartialEq, Eq, Structural)]
pub enum Model {
    OpenAi,
    DeepSeek,
    Qwen,
    Kimi,
}

/// The name by which a model is asked for.
pub open spec fn name_of(m: Model) -> Seq<char> {
    match m {
        Model::OpenAi => "openai"@,
        Model::DeepSeek => "deepseek"@,
        Model::Qwen => "qwen"@,
        Model::Kimi => "kimi"@,
    }
}

/// Where a model is reached, unless something else is said.
pub open spec fn url_of(m: Model) -> Seq<char> {
    match m {
        Model::OpenAi => "https://api.openai.com/v1"@,
        Model::DeepSeek => "https://api.deepseek.com"@,
        Model::Qwen => "https://dashscope.aliyuncs.com/compatible-mode/v1"@,
        Model::Kimi => "https://api.moonshot.cn/v1"@,
    }
}

/// Which of a service's models is used, unless something else is said.
pub open spec fn default_of(m: Model) -> Seq<char> {
    match m {
        Model::OpenAi => "gpt-4o"@,
        Model::DeepSeek => "deepseek-v4-flash"@,
        Model::Qwen => "qwen3-coder-plus"@,
        Model::Kimi => "kimi-k3"@,
    }
}

/// How many tokens a model takes in.
pub open spec fn window_of(m: Model) -> Option<usize> {
    match m {
        Model::OpenAi | Model::DeepSeek => Some(128_000usize),
        Model::Qwen => Some(1_000_000usize),
        Model::Kimi => Some(256_000usize),
    }
}

/// The model that a text asks for.
pub open spec fn model_named(text: Seq<char>) -> Option<Model> {
    let s = lowered(trimmed(text));
    if s == "openai"@ {
        Some(Model::OpenAi)
    } else if s == "deepseek"@ || s == "deep-seek"@ {
        Some(Model::DeepSeek)
    } else if s == "qwen"@ || s == "dashscope"@ {
        Some(Model::Qwen)
    } else if s == "kimi"@ || s == "moonshot"@ {
        Some(Model::Kimi)
    } else {
        None
    }
}

impl Model {
    /// The name by which the model is asked for.
    pub fn id(self) -> (r: &'static str)
        ensures
            r@ == name_of(self),
    {
        match self {
            Model::OpenAi => "openai",
            Model::DeepSeek => "deepseek",
            Model::Qwen => "qwen",
            Model::Kimi => "kimi",
        }
    }

    /// Where the model is reached.
    pub fn base_url(self) -> (r: &'static str)
        ensures
            r@ == url_of(self),
    {
        match self {
            Model::OpenAi => "https://api.openai.com/v1",
            Model::DeepSeek => "https://api.deepseek.com",
            Model::Qwen => "https://dashscope.aliyuncs.com/compatible-mode/v1",
            Model::Kimi => "https://api.moonshot.cn/v1",
        }
    }

    /// Which of the service's models is used.
    pub fn default_model_id(self) -> (r: &'static str)
        ensures
            r@ == default_of(self),
    {
        match self {
            Model::OpenAi => "gpt-4o",
            Model::DeepSeek => "deepseek-v4-flash",
            Model::Qwen => "qwen3-coder-plus",
            Model::Kimi => "kimi-k3",
        }
    }

    /// What the user is asked for.
    pub fn api_key_label(self) -> (r: &'static str)
        ensures
            r@ == (match self {
                Model::OpenAi => "OpenAI API key"@,
                Model::DeepSeek => "DeepSeek API key"@,
                Model::Qwen => "Qwen API key"@,
                Model::Kimi => "Kimi API key"@,
            }),
    {
        match self {
            Model::OpenAi => "OpenAI API key",
            Model::DeepSeek => "DeepSeek API key",
            Model::Qwen => "Qwen API key",
            Model::Kimi => "Kimi API key",
        }
    }

    /// The environment variable that may hold the key.
    pub fn api_key_env(self) -> (r: &'static str)
        ensures
            r@ == (match self {
                Model::OpenAi => "OPENAI_API_KEY"@,
                Model::DeepSeek => "DEEPSEEK_API_KEY"@,
                Model::Qwen => "DASHSCOPE_API_KEY"@,
                Model::Kimi => "MOONSHOT_API_KEY"@,
            }),
    {
        match self {
            Model::OpenAi => "OPENAI_API_KEY",
            Model::DeepSeek => "DEEPSEEK_API_KEY",
            Model::Qwen => "DASHSCOPE_API_KEY",
            Model::Kimi => "MOONSHOT_API_KEY",
        }
    }

    /// Whether a temperature may be asked for.
    pub fn supports_custom_temperature(self) -> (r: bool)
        ensures
            r == (self != Model::Kimi),
    {
        match self {
            Model::Kimi => false,
            _ => true,
        }
    }

    /// How many tokens the model takes in.
    pub fn context_window(self) -> (r: Option<usize>)
        ensures
            r == window_of(self),
    {
        match self {
            Model::OpenAi | Model::DeepSeek => Some(128_000),
            Model::Qwen => Some(1_000_000),
            Model::Kimi => Some(256_000),
        }
    }

    /// The names of all models.
    pub fn supported() -> (r: Vec<&'static str>)
        ensures
            r@.len() == 4,
            forall|i: int|
                0 <= i < 4 ==> (#[trigger] r@[i])@ == name_of(
                    seq![Model::OpenAi, Model::DeepSeek, Model::Qwen, Model::Kimi][i],
                ),
    {
        vec!["openai", "deepseek", "qwen", "kimi"]
    }

    /// All models.
    pub fn all() -> (r: Vec<Model>)
        ensures
            r@ == seq![Model::OpenAi, Model::DeepSeek, Model::Qwen, Model::Kimi],
    {
        let out = vec![Model::OpenAi, Model::DeepSeek, Model::Qwen, Model::Kimi];
        assert(out@ =~= seq![Model::OpenAi, Model::DeepSeek, Model::Qwen, Model::Kimi]);
        out
    }

    /// The model that a text asks for: its name or one of its other names, in
    /// any case, with or without space around it.
    pub fn parse(value: &str) -> (r: Result<Model, Error>)
        ensures
            match model_named(value@) {
                Some(m) => r == Ok::<Model, Error>(m),
                None => r matches Err(e) && e@ == "unsupported model '"@ + lowered(trimmed(value@))
                    + "'; supported models: openai, deepseek, qwen, kimi"@,
            },
    {
        let s = to_lower(trim(value).as_str());
        if same(s.as_str(), "openai") {
            return Ok(Model::OpenAi);
        }
        if same(s.as_str(), "deepseek") || same(s.as_str(), "deep-seek") {
            return Ok(Model::DeepSeek);
        }
        if same(s.as_str(), "qwen") || same(s.as_str(), "dashscope") {
            return Ok(Model::Qwen);
        }
        if same(s.as_str(), "kimi") || same(s.as_str(), "moonshot") {
            return Ok(Model::Kimi);
        }
        Err(
            crate::error::fail_about(
                "unsupported model '",
                s.as_str(),
                "'; supported models: openai, deepseek, qwen, kimi",
            ),
        )
    }
}

impl std::str::FromStr for Model {
    type Err = String;

    fn from_str(value: &str) -> (r: Result<Model, String>) {
        match Model::parse(value) {
            Ok(model) => Ok(model),
            Err(e) => Err(e.message),
        }
    }
}

/// The form of messages that a service speaks.
#[derive(Debug, Clone, Copy, PartialEq, Eq, Structural)]
pub enum ProviderProtocol {
    OpenAiCompatible,
    AnthropicMessages,
}

/// How a key is shown to a service.
#[derive(Debug, Clone, Copy, PartialEq, Eq, Structural)]
pub enum AuthenticationMode {
    Bearer,
    XApiKey,
}

/// The form of messages that a model's service speaks by default.
pub open spec fn protocol_of(m: Model) -> ProviderProtocol {
    ProviderProtocol::OpenAiCompatible
}

/// How a key is shown to a model's service by default.
pub open spec fn authentication_of(m: Model) -> AuthenticationMode {
    AuthenticationMode::Bearer
}

/// The name of a form of messages.
pub open spec fn protocol_name(p: ProviderProtocol) -> Seq<char> {
    match p {
        ProviderProtocol::OpenAiCompatible => "openai-compatible"@,
        ProviderProtocol::AnthropicMessages => "anthropic-messages"@,
    }
}

/// The name of a way of showing a key.
pub open spec fn authentication_name(a: AuthenticationMode) -> Seq<char> {
    match a {
        AuthenticationMode::Bearer => "bearer"@,
        AuthenticationMode::XApiKey => "x-api-key"@,
    }
}

/// The form of messages that a text names.
pub open spec fn protocol_named(text: Seq<char>) -> Option<ProviderProtocol> {
    let s = lowered(trimmed(text));
    if s == "openai-compatible"@ {
        Some(ProviderProtocol::OpenAiCompatible)
    } else if s == "anthropic-messages"@ {
        Some(ProviderProtocol::AnthropicMessages)
    } else {
        None
    }
}

/// The way of showing a key that a text names.
pub open spec fn authentication_named(text: Seq<char>) -> Option<AuthenticationMode> {
    let s = lowered(trimmed(text));
    if s == "bearer"@ {
        Some(AuthenticationMode::Bearer)
    } else if s == "x-api-key"@ {
        Some(AuthenticationMode::XApiKey)
    } else {
        None
    }
}

impl Model {
    /// The form of messages that the model's service speaks by default.
    pub fn default_protocol(self) -> (r: ProviderProtocol)
        ensures
            r == protocol_of(self),
    {
        ProviderProtocol::OpenAiCompatible
    }

    /// How a key is shown to the model's service by default.
    pub fn default_authentication(self) -> (r: AuthenticationMode)
        ensures
            r == authentication_of(self),
    {
        AuthenticationMode::Bearer
    }
}

impl ProviderProtocol {
    /// The name of the form of messages.
    pub fn name(self) -> (r: &'static str)
        ensures
            r@ == protocol_name(self),
    {
        match self {
            ProviderProtocol::OpenAiCompatible => "openai-compatible",
            ProviderProtocol::AnthropicMessages => "anthropic-messages",
        }
    }

    /// The form of messages that a text names.
    pub fn parse(text: &str) -> (r: Option<Self>)
        ensures
            r == protocol_named(text@),
    {
        let s = to_lower(trim(text).as_str());
        if same(s.as_str(), "openai-compatible") {
            return Some(ProviderProtocol::OpenAiCompatible);
        }
        if same(s.as_str(), "anthropic-messages") {
            return Some(ProviderProtocol::AnthropicMessages);
        }
        None
    }
}

impl AuthenticationMode {
    /// The name of the way of showing a key.
    pub fn name(self) -> (r: &'static str)
        ensures
            r@ == authentication_name(self),
    {
        match self {
            AuthenticationMode::Bearer => "bearer",
            AuthenticationMode::XApiKey => "x-api-key",
        }
    }

    /// The way of showing a key that a text names.
    pub fn parse(text: &str) -> (r: Option<Self>)
        ensures
            r == authentication_named(text@),
    {
        let s = to_lower(trim(text).as_str());
        if same(s.as_str(), "bearer") {
            return Some(AuthenticationMode::Bearer);
        }
        if same(s.as_str(), "x-api-key") {
            return Some(AuthenticationMode::XApiKey);
        }
        None
    }
}

/// Every model is found by its own name.
pub proof fn a_model_is_found_by_its_name(m: Model)
    ensures
        model_named(name_of(m)) == Some(m),
{
    reveal_strlit("openai");
    reveal_strlit("deepseek");
    reveal_strlit("deep-seek");
    reveal_strlit("qwen");
    reveal_strlit("dashscope");
    reveal_strlit("kimi");
    reveal_strlit("moonshot");
    let s = name_of(m);
    crate::text::lemma_trimmed_is(s, 0, s.len() as int);
    assert(s.subrange(0, s.len() as int) =~= s);
    assert(lowered(s) =~= s);
    assert("openai"@[0] == 'o');
    assert("deepseek"@[0] == 'd');
    assert("deep-seek"@[0] == 'd');
    assert("qwen"@[0] == 'q');
    assert("kimi"@[0] == 'k');
    assert("dashscope"@.len() == 9);
    assert("moonshot"@[0] == 'm');
}

/// What is kept of the access to one model.
#[derive(Debug)]
pub struct ModelCredential {
    pub api_key: String,
    pub base_url: Option<String>,
    pub model_id: Option<String>,
    pub protocol: Option<ProviderProtocol>,
    pub authentication: Option<AuthenticationMode>,
}

/// The view of what is kept.
#[verifier::ext_equal]
pub struct CredentialView {
    pub api_key: Seq<char>,
    pub base_url: Option<Seq<char>>,
    pub model_id: Option<Seq<char>>,
    pub protocol: Option<ProviderProtocol>,
    pub authentication: Option<AuthenticationMode>,
}

impl View for ModelCredential {
    type V = CredentialView;

    open spec fn view(&self) -> CredentialView {
        CredentialView {
            api_key: self.api_key@,
            base_url: maybe(self.base_url),
            model_id: maybe(self.model_id),
            protocol: self.protocol,
            authentication: self.authentication,
        }
    }
}

/// One entry: the model's name, and what is kept of the access to it.
#[derive(Debug)]
pub struct CredentialEntry {
    pub name: String,
    pub credential: ModelCredential,
}

/// How a model stands.
#[derive(Debug, Clone, Copy, PartialEq, Eq, Structural)]
pub struct ModelStatus {
    pub model: Model,
    pub logged_in: bool,
    pub active: bool,
}

/// The names that entries are kept under.
pub open spec fn entry_names(v: Seq<CredentialEntry>) -> Seq<Seq<char>> {
    v.map_values(|e: CredentialEntry| e.name@)
}

/// What entries hold, by name.
pub open spec fn entry_map(v: Seq<CredentialEntry>) -> Map<Seq<char>, CredentialView>
    decreases v.len(),
{
    if v.len() == 0 {
        Map::empty()
    } else {
        entry_map(v.drop_last()).insert(v.last().name@, v.last().credential@)
    }
}

proof fn lemma_entry(v: Seq<CredentialEntry>, i: int)
    requires
        0 <= i < v.len(),
        entry_names(v).no_duplicates(),
    ensures
        entry_map(v).dom().contains(v[i].name@),
        entry_map(v)[v[i].name@] == v[i].credential@,
    decreases v.len(),
{
    let names = entry_names(v);
    if i < v.len() - 1 {
        let rest = v.drop_last();
        assert(entry_names(rest) =~= names.drop_last());
        assert forall|a: int, b: int| 0 <= a < rest.len() && 0 <= b < rest.len() && a != b implies entry_names(rest)[a]
            != entry_names(rest)[b] by {
            assert(names[a] != names[b]);
        }
        lemma_entry(rest, i);
        assert(names[i] != names[v.len() - 1]);
        assert(v[i] == rest[i]);
    }
}

proof fn lemma_no_entry(v: Seq<CredentialEntry>, name: Seq<char>)
    requires
        forall|i: int| 0 <= i < v.len() ==> #[trigger] v[i].name@ != name,
    ensures
        !entry_map(v).dom().contains(name),
    decreases v.len(),
{
    if v.len() > 0 {
        assert forall|i: int| 0 <= i < v.drop_last().len() implies #[trigger] v.drop_last()[i].name@
            != name by {
            assert(v[i].name@ != name);
        }
        lemma_no_entry(v.drop_last(), name);
    }
}

/// Putting another credential in a slot.
proof fn lemma_entry_set(v: Seq<CredentialEntry>, k: int, e: CredentialEntry)
    requires
        0 <= k < v.len(),
        entry_names(v).no_duplicates(),
        e.name@ == v[k].name@,
    ensures
        entry_names(v.update(k, e)) == entry_names(v),
        entry_map(v.update(k, e)) == entry_map(v).insert(e.name@, e.credential@),
    decreases v.len(),
{
    let w = v.update(k, e);
    let names = entry_names(v);
    assert(entry_names(w) =~= names);
    if k < v.len() - 1 {
        let rest = v.drop_last();
        assert(entry_names(rest) =~= names.drop_last());
        assert forall|a: int, b: int| 0 <= a < rest.len() && 0 <= b < rest.len() && a != b implies entry_names(rest)[a]
            != entry_names(rest)[b] by {
            assert(names[a] != names[b]);
        }
        assert(w.drop_last() =~= rest.update(k, e));
        lemma_entry_set(rest, k, e);
        assert(names[k] != names[v.len() - 1]);
        assert(entry_map(w) =~= entry_map(v).insert(e.name@, e.credential@));
    } else {
        assert(w.drop_last() =~= v.drop_last());
        assert(entry_map(w) =~= entry_map(v).insert(e.name@, e.credential@));
    }
}

/// Taking an entry out.
proof fn lemma_entry_remove(v: Seq<CredentialEntry>, k: int)
    requires
        0 <= k < v.len(),
        entry_names(v).no_duplicates(),
    ensures
        entry_names(v.remove(k)).no_duplicates(),
        entry_map(v.remove(k)) == entry_map(v).remove(v[k].name@),
    decreases v.len(),
{
    let w = v.remove(k);
    let names = entry_names(v);
    assert forall|a: int, b: int| 0 <= a < w.len() && 0 <= b < w.len() && a != b implies entry_names(w)[a]
        != entry_names(w)[b] by {
        let x = if a < k { a } else { a + 1 };
        let y = if b < k { b } else { b + 1 };
        assert(entry_names(w)[a] == names[x]);
        assert(entry_names(w)[b] == names[y]);
        assert(names[x] != names[y]);
    }
    let name = v[k].name@;
    let rest = v.drop_last();
    assert(entry_names(rest) =~= names.drop_last());
    assert forall|a: int, b: int| 0 <= a < rest.len() && 0 <= b < rest.len() && a != b implies entry_names(rest)[a]
        != entry_names(rest)[b] by {
        assert(names[a] != names[b]);
    }
    if k < v.len() - 1 {
        assert(w.drop_last() =~= rest.remove(k));
        assert(w.last() == v.last());
        lemma_entry_remove(rest, k);
        assert(names[k] != names[v.len() - 1]);
        assert(entry_map(w) =~= entry_map(v).remove(name));
    } else {
        assert(w =~= rest);
        assert forall|i: int| 0 <= i < rest.len() implies #[trigger] rest[i].name@ != name by {
            assert(names[i] != names[k]);
        }
        lemma_no_entry(rest, name);
        assert(entry_map(w) =~= entry_map(v).remove(name));
    }
}

/// The user's access to models, and the file in which it is kept.
#[derive(Debug)]
pub struct CredentialStore {
    pub(crate) path: String,
    pub(crate) active: Option<Model>,
    pub(crate) entries: Vec<CredentialEntry>,
}

/// The view of a store: no name occurs twice.
#[verifier::ext_equal]
pub struct StoreView {
    pub path: Seq<char>,
    pub active: Option<Model>,
    pub models: Map<Seq<char>, CredentialView>,
}

impl View for CredentialStore {
    type V = StoreView;

    closed spec fn view(&self) -> StoreView {
        StoreView { path: self.path@, active: self.active, models: entry_map(self.entries@) }
    }
}

/// What a login gives: a text that is not blank, without the space around it.
pub open spec fn given_url(base_url: Option<Seq<char>>) -> Option<Seq<char>> {
    match base_url {
        Some(url) => if blank(url) {
            None
        } else {
            Some(trimmed(url))
        },
        None => None,
    }
}

/// What is kept of a model after a login.
pub open spec fn after_login(
    old: Option<CredentialView>,
    api_key: Seq<char>,
    base_url: Option<Seq<char>>,
) -> CredentialView {
    match old {
        Some(c) => CredentialView {
            api_key: trimmed(api_key),
            base_url: match given_url(base_url) {
                Some(url) => Some(url),
                None => c.base_url,
            },
            model_id: c.model_id,
            protocol: c.protocol,
            authentication: c.authentication,
        },
        None => CredentialView {
            api_key: trimmed(api_key),
            base_url: given_url(base_url),
            model_id: None,
            protocol: None,
            authentication: None,
        },
    }
}

/// What is kept of a model with how its service is spoken to.
pub open spec fn with_settings(
    c: CredentialView,
    settings: Option<(ProviderProtocol, AuthenticationMode)>,
) -> CredentialView {
    match settings {
        Some((protocol, authentication)) => CredentialView {
            protocol: Some(protocol),
            authentication: Some(authentication),
            ..c
        },
        None => c,
    }
}

/// What is kept under a name.
pub open spec fn kept(s: StoreView, name: Seq<char>) -> Option<CredentialView> {
    if s.models.dom().contains(name) {
        Some(s.models[name])
    } else {
        None
    }
}

/// The view of a text that may be left out.
pub open spec fn maybe_str(s: Option<&str>) -> Option<Seq<char>> {
    match s {
        Some(text) => Some(text@),
        None => None,
    }
}

fn copy_text(text: &Option<String>) -> (r: Option<String>)
    ensures
        maybe(r) == maybe(*text),
{
    match text {
        Some(s) => Some(s.clone()),
        None => None,
    }
}

impl CredentialStore {
    /// No name occurs twice.
    pub closed spec fn wf(&self) -> bool {
        entry_names(self.entries@).no_duplicates()
    }

    /// An empty store for a file.
    pub fn at(path: String) -> (r: Self)
        ensures
            r.wf(),
            r@ == (StoreView { path: path@, active: None, models: Map::empty() }),
    {
        let out = CredentialStore { path, active: None, entries: Vec::new() };
        assert(out@ =~= StoreView { path: path@, active: None, models: Map::empty() });
        out
    }

    /// The store of a user: the file lies in the directory that is set for it,
    /// or in the user's home.
    pub fn discover(config_dir: Option<String>, home: Option<String>) -> (r: Result<Self, Error>)
        ensures
            match (maybe(config_dir), maybe(home)) {
                (Some(dir), _) => r matches Ok(s) && s.wf() && s@ == (StoreView {
                    path: under(dir, "credentials.json"@),
                    active: None,
                    models: Map::empty(),
                }),
                (None, Some(dir)) => r matches Ok(s) && s.wf() && s@ == (StoreView {
                    path: under(under(dir, "noya"@), "credentials.json"@),
                    active: None,
                    models: Map::empty(),
                }),
                (None, None) => r matches Err(e) && e@
                    == "cannot determine the user home directory"@,
            },
    {
        let directory = match config_dir {
            Some(dir) => dir,
            None => match home {
                Some(dir) => join_path(dir.as_str(), "noya"),
                None => {
                    return Err(fail("cannot determine the user home directory"));
                },
            },
        };
        Ok(CredentialStore::at(join_path(directory.as_str(), "credentials.json")))
    }

    /// The file.
    pub fn path(&self) -> (r: &str)
        ensures
            r@ == self@.path,
    {
        self.path.as_str()
    }

    /// Takes in what the file holds: of two entries of one name the later one
    /// stands.
    pub fn fill(&mut self, active: Option<Model>, entries: Vec<CredentialEntry>)
        ensures
            final(self).wf(),
            final(self)@ == (StoreView {
                path: old(self)@.path,
                active,
                models: entry_map(entries@),
            }),
    {
        self.active = active;
        self.entries = Vec::new();
        assert(entry_map(self.entries@) =~= entry_map(entries@.take(0)));
        for entry in it: entries
            invariant
                self.wf(),
                self.path == old(self).path,
                self.active == active,
                it.seq() == entries@,
                entry_map(self.entries@) == entry_map(entries@.take(it.index() as int)),
        {
            let ghost done = entries@.take(it.index() as int);
            let ghost next = entries@.take(it.index() + 1);
            assert(next.drop_last() =~= done);
            assert(next.last() == entry);
            self.set(entry);
        }
        assert(entries@.take(entries@.len() as int) =~= entries@);
        assert(self@ =~= StoreView {
            path: old(self)@.path,
            active,
            models: entry_map(entries@),
        });
    }

    /// Where a name is kept.
    fn slot(&self, name: &str) -> (r: Option<usize>)
        requires
            self.wf(),
        ensures
            match r {
                Some(i) => i < self.entries@.len() && self.entries@[i as int].name@ == name@
                    && kept(self@, name@) == Some(self.entries@[i as int].credential@),
                None => kept(self@, name@) is None && forall|i: int|
                    0 <= i < self.entries@.len() ==> #[trigger] self.entries@[i].name@ != name@,
            },
    {
        let mut i: usize = 0;
        while i < self.entries.len()
            invariant
                self.wf(),
                i <= self.entries@.len(),
                forall|j: int| 0 <= j < i ==> #[trigger] self.entries@[j].name@ != name@,
            decreases self.entries@.len() - i,
        {
            if same(self.entries[i].name.as_str(), name) {
                proof {
                    lemma_entry(self.entries@, i as int);
                }
                return Some(i);
            }
            i += 1;
        }
        proof {
            lemma_no_entry(self.entries@, name@);
        }
        None
    }

    /// Keeps an entry, in place of the one of its name.
    fn set(&mut self, entry: CredentialEntry)
        requires
            old(self).wf(),
        ensures
            final(self).wf(),
            final(self).path == old(self).path,
            final(self).active == old(self).active,
            entry_map(final(self).entries@) == entry_map(old(self).entries@).insert(
                entry.name@,
                entry.credential@,
            ),
    {
        match self.slot(entry.name.as_str()) {
            Some(i) => {
                proof {
                    lemma_entry_set(self.entries@, i as int, entry);
                }
                self.entries.set(i, entry);
            },
            None => {
                let ghost old_entries = self.entries@;
                let ghost names = entry_names(old_entries);
                self.entries.push(entry);
                proof {
                    assert(self.entries@.drop_last() =~= old_entries);
                    let after = entry_names(self.entries@);
                    assert forall|a: int, b: int|
                        0 <= a < after.len() && 0 <= b < after.len() && a != b implies after[a]
                        != after[b] by {
                        if a < names.len() {
                            assert(after[a] == names[a]);
                            assert(after[a] == old_entries[a].name@);
                        }
                        if b < names.len() {
                            assert(after[b] == names[b]);
                            assert(after[b] == old_entries[b].name@);
                        }
                    }
                }
            },
        }
    }

    /// Keeps a key for a model, and makes the model the active one.
    pub fn login(&mut self, model: Model, api_key: &str, base_url: Option<&str>) -> (r: Result<
        (),
        Error,
    >)
        requires
            old(self).wf(),
        ensures
            final(self).wf(),
            if blank(api_key@) {
                r matches Err(e) && e@ == "API key cannot be empty"@ && final(self)@ == old(self)@
            } else {
                r is Ok && final(self)@ == (StoreView {
                    path: old(self)@.path,
                    active: Some(model),
                    models: old(self)@.models.insert(
                        name_of(model),
                        after_login(
                            kept(old(self)@, name_of(model)),
                            api_key@,
                            maybe_str(base_url),
                        ),
                    ),
                })
            },
    {
        self.enter(model, api_key, base_url, None)
    }

    /// Keeps a key for a model together with how its service is spoken to, and
    /// makes the model the active one.
    pub fn login_with_config(
        &mut self,
        model: Model,
        api_key: &str,
        base_url: Option<&str>,
        protocol: ProviderProtocol,
        authentication: AuthenticationMode,
    ) -> (r: Result<(), Error>)
        requires
            old(self).wf(),
        ensures
            final(self).wf(),
            if blank(api_key@) {
                r matches Err(e) && e@ == "API key cannot be empty"@ && final(self)@ == old(self)@
            } else {
                r is Ok && final(self)@ == (StoreView {
                    path: old(self)@.path,
                    active: Some(model),
                    models: old(self)@.models.insert(
                        name_of(model),
                        with_settings(
                            after_login(
                                kept(old(self)@, name_of(model)),
                                api_key@,
                                maybe_str(base_url),
                            ),
                            Some((protocol, authentication)),
                        ),
                    ),
                })
            },
    {
        self.enter(model, api_key, base_url, Some((protocol, authentication)))
    }

    /// Keeps which of a service's models is used: whether there is an entry to
    /// keep it in.
    pub fn set_model_id(&mut self, model: Model, model_id: &str) -> (r: bool)
        requires
            old(self).wf(),
        ensures
            final(self).wf(),
            r == (kept(old(self)@, name_of(model)) is Some),
            final(self)@ == (match kept(old(self)@, name_of(model)) {
                Some(c) => StoreView {
                    models: old(self)@.models.insert(
                        name_of(model),
                        CredentialView { model_id: Some(model_id@), ..c },
                    ),
                    ..old(self)@
                },
                None => old(self)@,
            }),
    {
        match self.slot(model.id()) {
            Some(i) => {
                let old_entry = &self.entries[i].credential;
                let credential = ModelCredential {
                    api_key: old_entry.api_key.clone(),
                    base_url: copy_text(&old_entry.base_url),
                    model_id: Some(model_id.to_owned()),
                    protocol: old_entry.protocol,
                    authentication: old_entry.authentication,
                };
                assert(credential@ =~= CredentialView {
                    model_id: Some(model_id@),
                    ..self.entries@[i as int].credential@
                });
                self.set(CredentialEntry { name: model.id().to_owned(), credential });
                true
            },
            None => false,
        }
    }

    /// Keeps a key for a model, and makes the model the active one.
    fn enter(
        &mut self,
        model: Model,
        api_key: &str,
        base_url: Option<&str>,
        settings: Option<(ProviderProtocol, AuthenticationMode)>,
    ) -> (r: Result<(), Error>)
        requires
            old(self).wf(),
        ensures
            final(self).wf(),
            if blank(api_key@) {
                r matches Err(e) && e@ == "API key cannot be empty"@ && final(self)@ == old(self)@
            } else {
                r is Ok && final(self)@ == (StoreView {
                    path: old(self)@.path,
                    active: Some(model),
                    models: old(self)@.models.insert(
                        name_of(model),
                        with_settings(
                            after_login(
                                kept(old(self)@, name_of(model)),
                                api_key@,
                                maybe_str(base_url),
                            ),
                            settings,
                        ),
                    ),
                })
            },
    {
        let key = trim(api_key);
        if is_blank(api_key) {
            return Err(fail("API key cannot be empty"));
        }
        let url: Option<String> = match base_url {
            Some(url) => if is_blank(url) {
                None
            } else {
                Some(trim(url))
            },
            None => None,
        };
        assert(maybe(url) == given_url(maybe_str(base_url)));
        let mut old_url: Option<String> = None;
        let mut model_id: Option<String> = None;
        let mut protocol: Option<ProviderProtocol> = None;
        let mut authentication: Option<AuthenticationMode> = None;
        match self.slot(model.id()) {
            Some(i) => {
                let old_entry = &self.entries[i].credential;
                old_url = copy_text(&old_entry.base_url);
                model_id = copy_text(&old_entry.model_id);
                protocol = old_entry.protocol;
                authentication = old_entry.authentication;
            },
            None => {},
        }
        match settings {
            Some(given) => {
                protocol = Some(given.0);
                authentication = Some(given.1);
            },
            None => {},
        }
        let base_url = match url {
            Some(url) => Some(url),
            None => old_url,
        };
        let credential = ModelCredential {
            api_key: key,
            base_url,
            model_id,
            protocol,
            authentication,
        };
        self.set(CredentialEntry { name: model.id().to_owned(), credential });
        self.active = Some(model);
        assert(self@ =~= StoreView {
            path: old(self)@.path,
            active: Some(model),
            models: old(self)@.models.insert(name_of(model), credential@),
        });
        Ok(())
    }

    /// Forgets a model: whether there was anything to forget. Nothing is
    /// changed where there was not.
    pub fn logout(&mut self, model: Model) -> (r: bool)
        requires
            old(self).wf(),
        ensures
            final(self).wf(),
            r == (kept(old(self)@, name_of(model)) is Some),
            final(self)@ == (if r {
                StoreView {
                    path: old(self)@.path,
                    active: if old(self)@.active == Some(model) {
                        None
                    } else {
                        old(self)@.active
                    },
                    models: old(self)@.models.remove(name_of(model)),
                }
            } else {
                old(self)@
            }),
    {
        match self.slot(model.id()) {
            Some(i) => {
                proof {
                    lemma_entry_remove(self.entries@, i as int);
                }
                let _gone = self.entries.remove(i);
                let active = match self.active {
                    Some(m) => m == model,
                    None => false,
                };
                if active {
                    self.active = None;
                }
                assert(self@.models =~= old(self)@.models.remove(name_of(model)));
                true
            },
            None => false,
        }
    }

    /// The active model.
    pub fn active_model(&self) -> (r: Option<Model>)
        ensures
            r == self@.active,
    {
        self.active
    }

    /// The key that is kept for a model.
    pub fn api_key(&self, model: Model) -> (r: Option<String>)
        requires
            self.wf(),
        ensures
            maybe(r) == (match kept(self@, name_of(model)) {
                Some(c) => Some(c.api_key),
                None => None,
            }),
    {
        match self.slot(model.id()) {
            Some(i) => Some(self.entries[i].credential.api_key.clone()),
            None => None,
        }
    }

    /// Where a model is reached, as far as that is kept.
    pub fn base_url(&self, model: Model) -> (r: Option<String>)
        requires
            self.wf(),
        ensures
            maybe(r) == (match kept(self@, name_of(model)) {
                Some(c) => c.base_url,
                None => None,
            }),
    {
        match self.slot(model.id()) {
            Some(i) => copy_text(&self.entries[i].credential.base_url),
            None => None,
        }
    }

    /// Which of a service's models is used, as far as that is kept.
    pub fn model_id(&self, model: Model) -> (r: Option<String>)
        requires
            self.wf(),
        ensures
            maybe(r) == (match kept(self@, name_of(model)) {
                Some(c) => c.model_id,
                None => None,
            }),
    {
        match self.slot(model.id()) {
            Some(i) => copy_text(&self.entries[i].credential.model_id),
            None => None,
        }
    }

    /// How a model's service is spoken to, as far as that is kept.
    pub fn settings(&self, model: Model) -> (r: (
        Option<ProviderProtocol>,
        Option<AuthenticationMode>,
    ))
        requires
            self.wf(),
        ensures
            r == (match kept(self@, name_of(model)) {
                Some(c) => (c.protocol, c.authentication),
                None => (None, None),
            }),
    {
        match self.slot(model.id()) {
            Some(i) => {
                let c = &self.entries[i].credential;
                (c.protocol, c.authentication)
            },
            None => (None, None),
        }
    }

    /// How every model stands.
    pub fn model_statuses(&self) -> (r: Vec<ModelStatus>)
        requires
            self.wf(),
        ensures
            r@ == seq![Model::OpenAi, Model::DeepSeek, Model::Qwen, Model::Kimi].map_values(
                |m: Model| status_of(self@, m),
            ),
    {
        let out = vec![
            self.status(Model::OpenAi),
            self.status(Model::DeepSeek),
            self.status(Model::Qwen),
            self.status(Model::Kimi),
        ];
        assert(out@ =~= seq![Model::OpenAi, Model::DeepSeek, Model::Qwen, Model::Kimi].map_values(
            |m: Model| status_of(self@, m),
        ));
        out
    }

    fn status(&self, model: Model) -> (r: ModelStatus)
        requires
            self.wf(),
        ensures
            r == status_of(self@, model),
    {
        let logged_in = match self.slot(model.id()) {
            Some(_) => true,
            None => false,
        };
        let active = match self.active {
            Some(m) => m == model,
            None => false,
        };
        ModelStatus { model, logged_in, active }
    }

    /// What the file shall hold.
    pub fn entries(&self) -> (r: &Vec<CredentialEntry>)
        ensures
            entry_map(r@) == self@.models,
            self.wf() ==> entry_names(r@).no_duplicates(),
    {
        &self.entries
    }
}

/// How a model stands in a store.
pub open spec fn status_of(s: StoreView, m: Model) -> ModelStatus {
    ModelStatus {
        model: m,
        logged_in: s.models.dom().contains(name_of(m)),
        active: s.active == Some(m),
    }
}

/// After a login the key is kept, without the space around it, and the model
/// is the active one.
pub proof fn a_login_is_kept(s: StoreView, m: Model, api_key: Seq<char>, base_url: Option<Seq<char>>)
    ensures
        ({
            let after = StoreView {
                path: s.path,
                active: Some(m),
                models: s.models.insert(
                    name_of(m),
                    after_login(kept(s, name_of(m)), api_key, base_url),
                ),
            };
            &&& kept(after, name_of(m)) is Some
            &&& kept(after, name_of(m))->0.api_key == trimmed(api_key)
            &&& status_of(after, m) == (ModelStatus { model: m, logged_in: true, active: true })
            &&& forall|other: Seq<char>|
                other != name_of(m) ==> #[trigger] kept(after, other) == kept(s, other)
        }),
{
}

/// What is said for one run.
#[derive(Debug)]
pub struct ModelOverrides {
    pub model: Option<Model>,
    pub api_key: Option<String>,
    pub base_url: Option<String>,
    pub model_id: Option<String>,
}

impl Default for ModelOverrides {
    fn default() -> (r: Self)
        ensures
            r == (ModelOverrides { model: None, api_key: None, base_url: None, model_id: None }),
    {
        ModelOverrides { model: None, api_key: None, base_url: None, model_id: None }
    }
}

/// The keys that the environment holds.
#[derive(Debug)]
pub struct EnvironmentKeys {
    pub openai: Option<String>,
    pub deepseek: Option<String>,
    pub qwen: Option<String>,
    pub kimi: Option<String>,
}

impl Default for EnvironmentKeys {
    fn default() -> (r: Self)
        ensures
            r == (EnvironmentKeys { openai: None, deepseek: None, qwen: None, kimi: None }),
    {
        EnvironmentKeys { openai: None, deepseek: None, qwen: None, kimi: None }
    }
}

/// The key that the environment holds for a model.
pub open spec fn environment_key(env: EnvironmentKeys, m: Model) -> Option<Seq<char>> {
    match m {
        Model::OpenAi => maybe(env.openai),
        Model::DeepSeek => maybe(env.deepseek),
        Model::Qwen => maybe(env.qwen),
        Model::Kimi => maybe(env.kimi),
    }
}

/// How a model is reached in one run.
#[derive(Debug)]
pub struct RuntimeModelConfig {
    pub model: Model,
    pub api_key: String,
    pub base_url: String,
    pub model_id: String,
    pub protocol: ProviderProtocol,
    pub authentication: AuthenticationMode,
}

/// The view of how a model is reached.
#[verifier::ext_equal]
pub struct RuntimeView {
    pub model: Model,
    pub api_key: Seq<char>,
    pub base_url: Seq<char>,
    pub model_id: Seq<char>,
    pub protocol: ProviderProtocol,
    pub authentication: AuthenticationMode,
}

impl View for RuntimeModelConfig {
    type V = RuntimeView;

    open spec fn view(&self) -> RuntimeView {
        RuntimeView {
            model: self.model,
            api_key: self.api_key@,
            base_url: self.base_url@,
            model_id: self.model_id@,
            protocol: self.protocol,
            authentication: self.authentication,
        }
    }
}

/// The first that is there.
pub open spec fn either(a: Option<Seq<char>>, b: Option<Seq<char>>) -> Option<Seq<char>> {
    match a {
        Some(s) => Some(s),
        None => b,
    }
}

/// What is there, or what stands for it.
pub open spec fn otherwise(a: Option<Seq<char>>, b: Seq<char>) -> Seq<char> {
    match a {
        Some(s) => s,
        None => b,
    }
}

/// The model of a run: what is said for it, the active one, or OpenAI's.
pub open spec fn chosen_model(overrides: ModelOverrides, s: StoreView) -> Model {
    match overrides.model {
        Some(m) => m,
        None => match s.active {
            Some(m) => m,
            None => Model::OpenAi,
        },
    }
}

/// How a run reaches its model: what is said for the run comes before the
/// environment, that before the store, and that before the defaults. A blank
/// key is not said.
pub open spec fn resolved(overrides: ModelOverrides, s: StoreView, env: EnvironmentKeys) -> RuntimeView {
    let m = chosen_model(overrides, s);
    let c = kept(s, name_of(m));
    let said = match maybe(overrides.api_key) {
        Some(key) => if blank(key) {
            None
        } else {
            Some(key)
        },
        None => None,
    };
    RuntimeView {
        model: m,
        api_key: otherwise(
            either(
                said,
                either(
                    environment_key(env, m),
                    match c {
                        Some(c) => Some(c.api_key),
                        None => None,
                    },
                ),
            ),
            Seq::empty(),
        ),
        base_url: otherwise(
            either(
                maybe(overrides.base_url),
                match c {
                    Some(c) => c.base_url,
                    None => None,
                },
            ),
            url_of(m),
        ),
        model_id: otherwise(
            either(
                maybe(overrides.model_id),
                match c {
                    Some(c) => c.model_id,
                    None => None,
                },
            ),
            default_of(m),
        ),
        protocol: match c {
            Some(c) => if c.protocol is Some {
                c.protocol->0
            } else {
                protocol_of(m)
            },
            None => protocol_of(m),
        },
        authentication: match c {
            Some(c) => if c.authentication is Some {
                c.authentication->0
            } else {
                authentication_of(m)
            },
            None => authentication_of(m),
        },
    }
}

impl RuntimeModelConfig {
    /// How a run reaches its model.
    pub fn resolve(
        overrides: ModelOverrides,
        store: &CredentialStore,
        environment: EnvironmentKeys,
    ) -> (r: Self)
        requires
            store.wf(),
        ensures
            r@ == resolved(overrides, store@, environment),
    {
        let model = match overrides.model {
            Some(m) => m,
            None => match store.active_model() {
                Some(m) => m,
                None => Model::OpenAi,
            },
        };
        let said: Option<String> = match overrides.api_key {
            Some(key) => if is_blank(key.as_str()) {
                None
            } else {
                Some(key)
            },
            None => None,
        };
        let from_environment = match model {
            Model::OpenAi => environment.openai,
            Model::DeepSeek => environment.deepseek,
            Model::Qwen => environment.qwen,
            Model::Kimi => environment.kimi,
        };
        let api_key = match said {
            Some(key) => key,
            None => match from_environment {
                Some(key) => key,
                None => match store.api_key(model) {
                    Some(key) => key,
                    None => String::new(),
                },
            },
        };
        let base_url = match overrides.base_url {
            Some(url) => url,
            None => match store.base_url(model) {
                Some(url) => url,
                None => model.base_url().to_owned(),
            },
        };
        let model_id = match overrides.model_id {
            Some(id) => id,
            None => match store.model_id(model) {
                Some(id) => id,
                None => model.default_model_id().to_owned(),
            },
        };
        let settings = store.settings(model);
        let protocol = match settings.0 {
            Some(protocol) => protocol,
            None => model.default_protocol(),
        };
        let authentication = match settings.1 {
            Some(authentication) => authentication,
            None => model.default_authentication(),
        };
        let out = RuntimeModelConfig {
            model,
            api_key,
            base_url,
            model_id,
            protocol,
            authentication,
        };
        assert(out@ =~= resolved(overrides, store@, environment));
        out
    }
}

/// A service's models, as they were last listed.
#[derive(Debug)]
pub struct ModelCatalog {
    pub provider: Model,
    pub base_url: String,
    pub fetched_at: i128,
    pub models: Vec<String>,
}

/// The view of a service's models.
#[verifier::ext_equal]
pub struct CatalogView {
    pub provider: Model,
    pub base_url: Seq<char>,
    pub fetched_at: i128,
    pub models: Seq<Seq<char>>,
}

impl View for ModelCatalog {
    type V = CatalogView;

    open spec fn view(&self) -> CatalogView {
        CatalogView {
            provider: self.provider,
            base_url: self.base_url@,
            fetched_at: self.fetched_at,
            models: texts(self.models@),
        }
    }
}

/// The views of services' models.
pub open spec fn catalog_views(v: Seq<ModelCatalog>) -> Seq<CatalogView> {
    v.map_values(|c: ModelCatalog| c@)
}

/// Where a service is reached, without the space around it and the slashes
/// behind it.
pub open spec fn plain_url(base_url: Seq<char>) -> Seq<char> {
    stripped_end(trimmed(base_url), '/')
}

/// The name that a service's models are kept under.
pub open spec fn catalog_key(provider: Model, base_url: Seq<char>) -> Seq<char> {
    name_of(provider) + "@"@ + plain_url(base_url)
}

/// A catalog is that of a service.
pub open spec fn is_of(c: CatalogView, provider: Model, base_url: Seq<char>) -> bool {
    c.provider == provider && c.base_url == plain_url(base_url)
}

/// The models of a service among what is kept.
pub open spec fn catalog_of(list: Seq<CatalogView>, provider: Model, base_url: Seq<char>) -> Option<
    CatalogView,
>
    decreases list.len(),
{
    if list.len() == 0 {
        None
    } else if is_of(list.last(), provider, base_url) {
        Some(list.last())
    } else {
        catalog_of(list.drop_last(), provider, base_url)
    }
}

/// The services' models as they were last listed, and the file in which they
/// are kept.
#[derive(Debug)]
pub struct ModelCatalogStore {
    pub path: String,
    pub catalogs: Vec<ModelCatalog>,
}

impl ModelCatalogStore {
    /// An empty store for a file.
    pub fn at(path: String) -> (r: Self)
        ensures
            r.path == path,
            catalog_views(r.catalogs@) == Seq::<CatalogView>::empty(),
    {
        let out = ModelCatalogStore { path, catalogs: Vec::new() };
        assert(catalog_views(out.catalogs@) =~= Seq::<CatalogView>::empty());
        out
    }

    /// The name that a service's models are kept under.
    pub fn key(provider: Model, base_url: &str) -> (r: String)
        ensures
            r@ == catalog_key(provider, base_url@),
    {
        let mut out: String = provider.id().to_owned();
        out.append("@");
        out.append(strip_end(trim(base_url).as_str(), '/').as_str());
        out
    }

    /// Keeps a service's models, in place of what was kept of it.
    pub fn save(&mut self, provider: Model, base_url: &str, models: Vec<String>, now: i128)
        ensures
            final(self).path == old(self).path,
            catalog_views(final(self).catalogs@) == catalog_views(old(self).catalogs@).filter(
                |c: CatalogView| !is_of(c, provider, base_url@),
            ).push(
                CatalogView {
                    provider,
                    base_url: plain_url(base_url@),
                    fetched_at: now,
                    models: texts(models@),
                },
            ),
    {
        let url = strip_end(trim(base_url).as_str(), '/');
        let ghost keep = |c: CatalogView| !is_of(c, provider, base_url@);
        let ghost all = catalog_views(self.catalogs@);
        let mut i: usize = 0;
        let mut rest: Vec<ModelCatalog> = Vec::new();
        assert(catalog_views(rest@) =~= all.take(0).filter(keep));
        while i < self.catalogs.len()
            invariant
                i <= self.catalogs.len(),
                self == old(self),
                all == catalog_views(self.catalogs@),
                url@ == plain_url(base_url@),
                keep == (|c: CatalogView| !is_of(c, provider, base_url@)),
                catalog_views(rest@) == all.take(i as int).filter(keep),
            decreases self.catalogs.len() - i,
        {
            let c = &self.catalogs[i];
            proof {
                let next = all.take(i + 1);
                assert(next.drop_last() =~= all.take(i as int));
                assert(next.last() == c@);
                reveal(Seq::filter);
            }
            if !(c.provider == provider && same(c.base_url.as_str(), url.as_str())) {
                let copy = ModelCatalog {
                    provider: c.provider,
                    base_url: c.base_url.clone(),
                    fetched_at: c.fetched_at,
                    models: copy_list(&c.models),
                };
                assert(copy@ =~= c@);
                assert(catalog_views(rest@.push(copy)) =~= catalog_views(rest@).push(copy@));
                rest.push(copy);
            }
            i += 1;
        }
        assert(all.take(i as int) =~= all);
        let new = ModelCatalog { provider, base_url: url, fetched_at: now, models };
        assert(catalog_views(rest@.push(new)) =~= catalog_views(rest@).push(new@));
        rest.push(new);
        self.catalogs = rest;
    }

    /// The models that are kept of a service.
    pub fn get(&self, provider: Model, base_url: &str) -> (r: Option<Vec<String>>)
        ensures
            match catalog_of(catalog_views(self.catalogs@), provider, base_url@) {
                Some(c) => r matches Some(models) && texts(models@) == c.models,
                None => r is None,
            },
    {
        let url = strip_end(trim(base_url).as_str(), '/');
        let ghost all = catalog_views(self.catalogs@);
        let mut i: usize = self.catalogs.len();
        assert(all.take(i as int) =~= all);
        while i > 0
            invariant
                i <= self.catalogs.len(),
                all == catalog_views(self.catalogs@),
                url@ == plain_url(base_url@),
                catalog_of(all, provider, base_url@) == catalog_of(
                    all.take(i as int),
                    provider,
                    base_url@,
                ),
            decreases i,
        {
            let c = &self.catalogs[i - 1];
            proof {
                assert(all.take(i as int).last() == c@);
                assert(all.take(i as int).drop_last() =~= all.take(i - 1));
            }
            if c.provider == provider && same(c.base_url.as_str(), url.as_str()) {
                return Some(copy_list(&c.models));
            }
            i -= 1;
        }
        None
    }
}

/// What was kept last of a service is what is found, whatever slashes or space
/// stand around its address.
pub proof fn a_saved_catalog_is_found(
    list: Seq<CatalogView>,
    provider: Model,
    base_url: Seq<char>,
    fetched_at: i128,
    models: Seq<Seq<char>>,
)
    ensures
        ({
            let new = CatalogView { provider, base_url: plain_url(base_url), fetched_at, models };
            let after = list.filter(|c: CatalogView| !is_of(c, provider, base_url)).push(new);
            catalog_of(after, provider, base_url) == Some(new)
        }),
{
}

/// A protocol and a way to authenticate are found by their names.
pub proof fn settings_are_found_by_their_names(p: ProviderProtocol, a: AuthenticationMode)
    ensures
        protocol_named(protocol_name(p)) == Some(p),
        authentication_named(authentication_name(a)) == Some(a),
{
    reveal_strlit("openai-compatible");
    reveal_strlit("anthropic-messages");
    reveal_strlit("bearer");
    reveal_strlit("x-api-key");
    let s = protocol_name(p);
    crate::text::lemma_trimmed_is(s, 0, s.len() as int);
    assert(s.subrange(0, s.len() as int) =~= s);
    assert(lowered(s) =~= s);
    let t = authentication_name(a);
    crate::text::lemma_trimmed_is(t, 0, t.len() as int);
    assert(t.subrange(0, t.len() as int) =~= t);
    assert(lowered(t) =~= t);
    assert("openai-compatible"@[0] == 'o');
    assert("anthropic-messages"@[0] == 'a');
    assert("bearer"@[0] == 'b');
    assert("x-api-key"@[0] == 'x');
}

/// A login keeps what was kept of a model besides the key: the address, unless a new
/// one is given, the model's identifier, the protocol and the way to authenticate.
pub proof fn a_login_keeps_the_rest(
    old: Option<CredentialView>,
    api_key: Seq<char>,
    base_url: Option<Seq<char>>,
)
    ensures
        ({
            let new = after_login(old, api_key, base_url);
            &&& new.api_key == trimmed(api_key)
            &&& base_url is Some && !blank(base_url->0) ==> new.base_url == Some(
                trimmed(base_url->0),
            )
            &&& (base_url is None || blank(base_url->0)) ==> new.base_url == (if old is Some {
                old->0.base_url
            } else {
                None
            })
            &&& old matches Some(c) ==> new.model_id == c.model_id && new.protocol == c.protocol
                && new.authentication == c.authentication
            &&& old is None ==> new.model_id is None && new.protocol is None && new.authentication
                is None
        }),
{
}

/// What a run uses is taken from the nearest place: what was said for this run comes
/// first, then the environment, for the key alone, then what is kept of the model,
/// and last what holds of the model in general. The model is the one that was said,
/// or the active one.
pub proof fn a_setting_comes_from_the_nearest_place(
    overrides: ModelOverrides,
    s: StoreView,
    env: EnvironmentKeys,
)
    ensures
        ({
            let r = resolved(overrides, s, env);
            let own = kept(s, name_of(r.model));
            let from_env = match r.model {
                Model::OpenAi => env.openai,
                Model::DeepSeek => env.deepseek,
                Model::Qwen => env.qwen,
                Model::Kimi => env.kimi,
            };
            let said = overrides.api_key is Some && !blank(overrides.api_key->0@);
            &&& overrides.model matches Some(m) ==> r.model == m
            &&& overrides.model is None && s.active is Some ==> r.model == s.active->0
            &&& said ==> r.api_key == overrides.api_key->0@
            &&& !said && from_env is Some ==> r.api_key == from_env->0@
            &&& !said && from_env is None && own is Some ==> r.api_key == own->0.api_key
            &&& !said && from_env is None && own is None ==> r.api_key.len() == 0
            &&& overrides.base_url matches Some(url) ==> r.base_url == url@
            &&& overrides.base_url is None && own is Some && own->0.base_url is Some ==> r.base_url
                == own->0.base_url->0
            &&& overrides.base_url is None && (own is None || own->0.base_url is None)
                ==> r.base_url == url_of(r.model)
            &&& overrides.model_id matches Some(id) ==> r.model_id == id@
            &&& overrides.model_id is None && own is Some && own->0.model_id is Some ==> r.model_id
                == own->0.model_id->0
            &&& overrides.model_id is None && (own is None || own->0.model_id is None)
                ==> r.model_id == default_of(r.model)
            &&& own is Some && own->0.protocol is Some ==> r.protocol == own->0.protocol->0
            &&& own is Some && own->0.authentication is Some ==> r.authentication
                == own->0.authentication->0
            &&& own is None ==> r.protocol == ProviderProtocol::OpenAiCompatible && r.authentication
                == AuthenticationMode::Bearer
        }),
{
}

/// A catalog is found under the address that it was saved for, whatever slashes and
/// space stand around it; the one that was saved last is found.
pub proof fn the_latest_catalog_is_found(
    list: Seq<CatalogView>,
    new: CatalogView,
    provider: Model,
    base_url: Seq<char>,
)
    ensures
        new.provider == provider && new.base_url == plain_url(base_url) ==> catalog_of(
            list.push(new),
            provider,
            base_url,
        ) == Some(new),
        !(new.provider == provider && new.base_url == plain_url(base_url)) ==> catalog_of(
            list.push(new),
            provider,
            base_url,
        ) == catalog_of(list, provider, base_url),
        catalog_of(list, provider, base_url) matches Some(c) ==> list.contains(c) && c.provider
            == provider && c.base_url == plain_url(base_url),
        catalog_of(list, provider, base_url) is None ==> forall|i: int|
            0 <= i < list.len() ==> !((#[trigger] list[i]).provider == provider && list[i].base_url
                == plain_url(base_url)),
    decreases list.len(),
{
    assert(list.push(new).drop_last() =~= list);
    if list.len() > 0 {
        let t = list.drop_last();
        the_latest_catalog_is_found(t, new, provider, base_url);
        let found = catalog_of(list, provider, base_url);
        assert(list[list.len() - 1] == list.last());
        if found is Some && !is_of(list.last(), provider, base_url) {
            let k = choose|k: int| 0 <= k < t.len() && t[k] == found->0;
            assert(list[k] == found->0);
        }
        if found is None {
            assert forall|i: int| 0 <= i < list.len() implies !((
            #[trigger] list[i]).provider == provider && list[i].base_url == plain_url(base_url)) by {
                if i < t.len() {
                    assert(t[i] == list[i]);
                }
            }
        }
    }
}

} // verus!
