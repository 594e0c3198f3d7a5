//! Code navigation through language servers: which server, what to ask it, and
//! how much of its answer a model is shown.
use crate::error::{fail, fail_with, Error};
use crate::json::{json_string, json_string_of};
use crate::order::{is_before, text_before};
use crate::paths::{join_path, under};
use crate::text::{
    begins, byte_count, byte_len, chars_of, decimal, decimal_of, lemma_texts_push, line_list,
    lines_of_text, maybe, number, parse_number, same, split, split_on, string_of, strip_prefix,
    swap_all, swapped, texts, to_lower, lowered, trim, trimmed, words, words_of,
};
use crate::tools::filesystem::lies_within;
use vstd::prelude::*;

verus! {

/// How many results are shown.
pub const MAX_RESULTS: usize = 100;

/// How many bytes of results are shown.
pub const MAX_OUTPUT_BYTES: usize = 16384;

/// What a language server is asked.
#[derive(Debug, Clone, Copy, PartialEq, Eq, Structural)]
pub enum Operation {
    Definition,
    References,
    WorkspaceSymbols,
}

/// The name of an operation.
pub open spec fn operation_name(op: Operation) -> Seq<char> {
    match op {
        Operation::Definition => "definition"@,
        Operation::References => "references"@,
        Operation::WorkspaceSymbols => "workspace_symbols"@,
    }
}

impl Operation {
    /// Reads the name of an operation.
    pub fn parse(value: &str) -> (r: Result<Self, Error>)
        ensures
            match r {
                Ok(op) => value@ == operation_name(op),
                Err(e) => value@ != "definition"@ && value@ != "references"@ && value@
                    != "workspace_symbols"@ && e@
                    == "operation must be definition, references, or workspace_symbols"@,
            },
    {
        if same(value, "definition") {
            Ok(Operation::Definition)
        } else if same(value, "references") {
            Ok(Operation::References)
        } else if same(value, "workspace_symbols") {
            Ok(Operation::WorkspaceSymbols)
        } else {
            Err(fail("operation must be definition, references, or workspace_symbols"))
        }
    }

    /// The name of the operation.
    pub fn as_str(self) -> (r: &'static str)
        ensures
            r@ == operation_name(self),
    {
        match self {
            Operation::Definition => "definition",
            Operation::References => "references",
            Operation::WorkspaceSymbols => "workspace_symbols",
        }
    }

    /// The method of the language server protocol for the operation.
    pub fn method(self) -> (r: &'static str)
        ensures
            r@ == (match self {
                Operation::Definition => "textDocument/definition"@,
                Operation::References => "textDocument/references"@,
                Operation::WorkspaceSymbols => "workspace/symbol"@,
            }),
    {
        match self {
            Operation::Definition => "textDocument/definition",
            Operation::References => "textDocument/references",
            Operation::WorkspaceSymbols => "workspace/symbol",
        }
    }
}

/// The last part of a path that names something, or nothing.
pub open spec fn last_part(parts: Seq<Seq<char>>) -> Seq<char>
    decreases parts.len(),
{
    if parts.len() == 0 {
        Seq::empty()
    } else if parts.last().len() == 0 || parts.last() == "."@ {
        last_part(parts.drop_last())
    } else {
        parts.last()
    }
}

/// Where the last dot of a name stands, or -1.
pub open spec fn last_dot(name: Seq<char>) -> int
    decreases name.len(),
{
    if name.len() == 0 {
        -1
    } else if name.last() == '.' {
        name.len() - 1
    } else {
        last_dot(name.drop_last())
    }
}

/// The extension of a path's file name: what follows the last dot in it, where
/// something stands before the dot.
pub open spec fn extension(path: Seq<char>) -> Option<Seq<char>> {
    let name = last_part(split_on(path, '/'));
    let k = last_dot(name);
    if k <= 0 || name == ".."@ {
        None
    } else {
        Some(name.skip(k + 1))
    }
}

fn extension_of(path: &str) -> (r: Option<String>)
    ensures
        maybe(r) == extension(path@),
{
    let parts = split(path, '/');
    let ghost all = texts(parts@);
    let mut n: usize = parts.len();
    assert(all.take(n as int) =~= all);
    while n > 0 && (parts[n - 1].as_str().is_empty() || same(parts[n - 1].as_str(), "."))
        invariant
            n <= parts.len(),
            all == texts(parts@),
            last_part(all) == last_part(all.take(n as int)),
        decreases n,
    {
        proof {
            assert(all.take(n as int).drop_last() =~= all.take(n - 1));
            assert(all.take(n as int).last() == parts@[n - 1]@);
        }
        n -= 1;
    }
    if n == 0 {
        assert(last_part(all).len() == 0);
        return None;
    }
    assert(all.take(n as int).last() == parts@[n - 1]@);
    let name = parts[n - 1].as_str();
    if same(name, "..") {
        return None;
    }
    let chars = chars_of(name);
    let mut k: usize = chars.len();
    assert(chars@.take(k as int) =~= chars@);
    while k > 0 && chars[k - 1] != '.'
        invariant
            k <= chars.len(),
            chars@ == name@,
            last_dot(chars@) == last_dot(chars@.take(k as int)),
        decreases k,
    {
        proof {
            assert(chars@.take(k as int).drop_last() =~= chars@.take(k - 1));
        }
        k -= 1;
    }
    if k <= 1 {
        assert(last_dot(chars@) <= 0);
        return None;
    }
    assert(chars@.take(k as int).last() == '.');
    let out = string_of(&chars, k, chars.len());
    assert(out@ =~= name@.skip(k as int));
    Some(out)
}

/// The language of files with an extension.
pub open spec fn language_of(ext: Seq<char>) -> Option<Seq<char>> {
    if ext == "rs"@ {
        Some("rust"@)
    } else if ext == "c"@ || ext == "h"@ || ext == "cc"@ || ext == "cpp"@ || ext == "cxx"@ || ext
        == "hpp"@ {
        Some("cpp"@)
    } else if ext == "go"@ {
        Some("go"@)
    } else if ext == "py"@ {
        Some("python"@)
    } else if ext == "ts"@ || ext == "tsx"@ || ext == "js"@ || ext == "jsx"@ {
        Some("typescript"@)
    } else if ext == "lua"@ {
        Some("lua"@)
    } else if ext == "sh"@ || ext == "bash"@ {
        Some("bash"@)
    } else if ext == "java"@ {
        Some("java"@)
    } else {
        None
    }
}

/// The view of a name that may not be there.
pub open spec fn maybe_name(name: Option<&'static str>) -> Option<Seq<char>> {
    match name {
        Some(n) => Some(n@),
        None => None,
    }
}

/// The language of a file, by the extension of its name in any case.
pub open spec fn path_language(path: Seq<char>) -> Option<Seq<char>> {
    match extension(path) {
        Some(ext) => language_of(lowered(ext)),
        None => None,
    }
}

/// The language of a file.
pub fn language_for_path(path: &str) -> (r: Option<&'static str>)
    ensures
        maybe_name(r) == path_language(path@),
{
    let ext = match extension_of(path) {
        Some(ext) => to_lower(ext.as_str()),
        None => {
            return None;
        },
    };
    let e = ext.as_str();
    if same(e, "rs") {
        Some("rust")
    } else if same(e, "c") || same(e, "h") || same(e, "cc") || same(e, "cpp") || same(e, "cxx")
        || same(e, "hpp") {
        Some("cpp")
    } else if same(e, "go") {
        Some("go")
    } else if same(e, "py") {
        Some("python")
    } else if same(e, "ts") || same(e, "tsx") || same(e, "js") || same(e, "jsx") {
        Some("typescript")
    } else if same(e, "lua") {
        Some("lua")
    } else if same(e, "sh") || same(e, "bash") {
        Some("bash")
    } else if same(e, "java") {
        Some("java")
    } else {
        None
    }
}

/// The languages of a workspace's files, each once, in the order in which they
/// are first met.
pub open spec fn languages_of(paths: Seq<Seq<char>>) -> Seq<Seq<char>>
    decreases paths.len(),
{
    if paths.len() == 0 {
        Seq::empty()
    } else {
        let before = languages_of(paths.drop_last());
        match path_language(paths.last()) {
            Some(language) => if before.contains(language) {
                before
            } else {
                before.push(language)
            },
            None => before,
        }
    }
}

/// The languages of a workspace's files.
pub fn languages_for_workspace(paths: &Vec<String>) -> (r: Vec<String>)
    ensures
        texts(r@) == languages_of(texts(paths@)),
{
    let ghost all = texts(paths@);
    let mut out: Vec<String> = Vec::new();
    let mut i: usize = 0;
    assert(texts(out@) =~= languages_of(all.take(0)));
    while i < paths.len()
        invariant
            i <= paths.len(),
            all == texts(paths@),
            texts(out@) == languages_of(all.take(i as int)),
        decreases paths.len() - i,
    {
        proof {
            let now = all.take(i + 1);
            assert(now.drop_last() =~= all.take(i as int));
            assert(now.last() == paths@[i as int]@);
        }
        if let Some(language) = language_for_path(paths[i].as_str()) {
            if !crate::text::lists(&out, language) {
                let name: String = language.to_owned();
                proof {
                    lemma_texts_push(out@, name);
                }
                out.push(name);
            }
        }
        i += 1;
    }
    assert(all.take(i as int) =~= all);
    out
}

/// How a language server is started.
#[derive(Debug)]
pub struct ServerCommand {
    pub program: String,
    pub args: Vec<String>,
}

/// The server of a language: its program, and its argument if it has one.
pub open spec fn known_server(language: Seq<char>) -> Option<(Seq<char>, Option<Seq<char>>)> {
    if language == "rust"@ {
        Some(("rust-analyzer"@, None))
    } else if language == "cpp"@ {
        Some(("clangd"@, Some("--log=error"@)))
    } else if language == "go"@ {
        Some(("gopls"@, Some("serve"@)))
    } else if language == "python"@ {
        Some(("pyright-langserver"@, Some("--stdio"@)))
    } else if language == "typescript"@ {
        Some(("typescript-language-server"@, Some("--stdio"@)))
    } else if language == "lua"@ {
        Some(("lua-language-server"@, Some("--stdio"@)))
    } else if language == "bash"@ {
        Some(("bash-language-server"@, Some("start"@)))
    } else if language == "java"@ {
        Some(("jdtls"@, None))
    } else {
        None
    }
}

/// The command line of a language's server: that of the override, if there is
/// one, else the one that is known.
pub open spec fn server_line(language: Seq<char>, custom: Option<Seq<char>>) -> Result<
    Seq<Seq<char>>,
    Seq<char>,
> {
    match known_server(language) {
        None => Err("unsupported language: "@ + language),
        Some((program, argument)) => match custom {
            Some(text) => if words(text).len() == 0 {
                Err("LSP override command cannot be empty"@)
            } else {
                Ok(words(text))
            },
            None => Ok(
                match argument {
                    Some(a) => seq![program, a],
                    None => seq![program],
                },
            ),
        },
    }
}

fn known(program: &str, argument: &str) -> (r: Vec<String>)
    ensures
        texts(r@) == (if argument@.len() > 0 {
            seq![program@, argument@]
        } else {
            seq![program@]
        }),
        r@.len() >= 1,
        texts(r@).len() == r@.len(),
{
    let mut out: Vec<String> = Vec::new();
    out.push(program.to_owned());
    if !argument.is_empty() {
        out.push(argument.to_owned());
    }
    assert(texts(out@) =~= (if argument@.len() > 0 {
        seq![program@, argument@]
    } else {
        seq![program@]
    }));
    out
}

/// How the server of a language is started; `custom` is what the environment
/// sets in its place.
pub fn server_command(language: &str, custom: Option<String>) -> (r: Result<ServerCommand, Error>)
    ensures
        match server_line(language@, maybe(custom)) {
            Ok(line) => r matches Ok(c) && seq![c.program@] + texts(c.args@) == line,
            Err(m) => r matches Err(e) && e@ == m,
        },
{
    proof {
        reveal_strlit("");
        reveal_strlit("--log=error");
        reveal_strlit("serve");
        reveal_strlit("--stdio");
        reveal_strlit("start");
    }
    let usual = if same(language, "rust") {
        known("rust-analyzer", "")
    } else if same(language, "cpp") {
        known("clangd", "--log=error")
    } else if same(language, "go") {
        known("gopls", "serve")
    } else if same(language, "python") {
        known("pyright-langserver", "--stdio")
    } else if same(language, "typescript") {
        known("typescript-language-server", "--stdio")
    } else if same(language, "lua") {
        known("lua-language-server", "--stdio")
    } else if same(language, "bash") {
        known("bash-language-server", "start")
    } else if same(language, "java") {
        known("jdtls", "")
    } else {
        return Err(fail_with("unsupported language: ", language));
    };
    let mut line = match custom {
        Some(text) => words_of(text.as_str()),
        None => usual,
    };
    let ghost all = texts(line@);
    assert(all.len() == line@.len());
    if line.len() == 0 {
        return Err(fail("LSP override command cannot be empty"));
    }
    let program = line.remove(0);
    assert(seq![program@] + texts(line@) =~= all);
    Ok(ServerCommand { program, args: line })
}

/// A path as a file URI.
pub fn path_to_uri(path: &str) -> (r: String)
    ensures
        r@ == "file://"@ + path@,
{
    let mut out: String = "file://".to_owned();
    out.append(path);
    out
}

/// The path of a file URI.
pub open spec fn uri_path(uri: Seq<char>) -> Option<Seq<char>> {
    if begins(uri, "file://"@) {
        Some(swapped(swapped(uri.skip("file://"@.len() as int), "%20"@, " "@), "%23"@, "#"@))
    } else {
        None
    }
}

/// The path of a file URI.
pub fn uri_to_path(uri: &str) -> (r: Option<String>)
    ensures
        maybe(r) == uri_path(uri@),
{
    proof {
        reveal_strlit("%20");
        reveal_strlit("%23");
    }
    match strip_prefix(uri, "file://") {
        Some(rest) => Some(
            swap_all(swap_all(rest.as_str(), "%20", " ").as_str(), "%23", "#"),
        ),
        None => None,
    }
}

/// A path without a percent sign survives being made a URI and back.
pub proof fn uris_lead_back(path: Seq<char>)
    requires
        forall|i: int| 0 <= i < path.len() ==> path[i] != '%',
    ensures
        uri_path("file://"@ + path) == Some(path),
{
    let uri = "file://"@ + path;
    assert(uri.take("file://"@.len() as int) =~= "file://"@);
    assert(uri.skip("file://"@.len() as int) =~= path);
    reveal_strlit("%20");
    reveal_strlit("%23");
    lemma_nothing_to_swap(path, "%20"@, " "@);
    lemma_nothing_to_swap(path, "%23"@, "#"@);
}

proof fn lemma_nothing_to_swap(s: Seq<char>, old: Seq<char>, new: Seq<char>)
    requires
        forall|i: int| 0 <= i < s.len() ==> s[i] != '%',
        old.len() > 0,
        old[0] == '%',
    ensures
        swapped(s, old, new) == s,
    decreases s.len(),
{
    if s.len() >= old.len() {
        if begins(s, old) {
            assert(s.take(old.len() as int)[0] == s[0]);
        }
        let rest = s.drop_first();
        assert forall|i: int| 0 <= i < rest.len() implies rest[i] != '%' by {
            assert(rest[i] == s[i + 1]);
        }
        lemma_nothing_to_swap(rest, old, new);
        assert(seq![s[0]] + rest =~= s);
    }
}

/// The header of a message to a language server.
pub fn message_header(body_bytes: usize) -> (r: String)
    ensures
        r@ == "Content-Length: "@ + decimal(body_bytes as nat) + "\r\n\r\n"@,
{
    let mut out: String = "Content-Length: ".to_owned();
    out.append(decimal_of(body_bytes as u64).as_str());
    out.append("\r\n\r\n");
    out
}

/// What a line of a message's header says.
#[derive(Debug, Clone, Copy, PartialEq, Eq, Structural)]
pub enum HeaderLine {
    /// The header ends.
    End,
    /// The body has this many bytes.
    Length(usize),
    /// Something else.
    Other,
}

/// A line without the carriage returns and newlines at its end.
pub open spec fn unterminated(line: Seq<char>) -> Seq<char>
    decreases line.len(),
{
    if line.len() > 0 && (line.last() == '\r' || line.last() == '\n') {
        unterminated(line.drop_last())
    } else {
        line
    }
}

/// What a line of a header says, or that its length is none.
pub open spec fn header_line(line: Seq<char>) -> Result<HeaderLine, Seq<char>> {
    let text = unterminated(line);
    if text.len() == 0 {
        Ok(HeaderLine::End)
    } else if begins(text, "Content-Length:"@) {
        match number(
            trimmed(text.skip("Content-Length:"@.len() as int)),
            usize::MAX as nat,
        ) {
            Some(n) => Ok(HeaderLine::Length(n as usize)),
            None => Err("invalid language server content length"@),
        }
    } else {
        Ok(HeaderLine::Other)
    }
}

/// Reads a line of a message's header.
pub fn read_header_line(line: &str) -> (r: Result<HeaderLine, Error>)
    ensures
        match header_line(line@) {
            Ok(h) => r == Ok::<HeaderLine, Error>(h),
            Err(m) => r matches Err(e) && e@ == m,
        },
{
    let chars = chars_of(line);
    let mut k: usize = chars.len();
    assert(chars@.take(k as int) =~= chars@);
    while k > 0 && (chars[k - 1] == '\r' || chars[k - 1] == '\n')
        invariant
            k <= chars.len(),
            chars@ == line@,
            unterminated(line@) == unterminated(chars@.take(k as int)),
        decreases k,
    {
        proof {
            assert(chars@.take(k as int).drop_last() =~= chars@.take(k - 1));
        }
        k -= 1;
    }
    let text = string_of(&chars, 0, k);
    proof {
        assert(chars@.subrange(0, k as int) =~= chars@.take(k as int));
        assert(k > 0 ==> chars@.take(k as int).last() == chars@[k - 1]);
    }
    if k == 0 {
        return Ok(HeaderLine::End);
    }
    match strip_prefix(text.as_str(), "Content-Length:") {
        Some(rest) => match parse_number(trim(rest.as_str()).as_str(), usize::MAX as u64) {
            Some(n) => Ok(HeaderLine::Length(n as usize)),
            None => Err(fail("invalid language server content length")),
        },
        None => Ok(HeaderLine::Other),
    }
}

// ---------------------------------------------------------------------------
// Results.
// ---------------------------------------------------------------------------

/// A place that a language server found; `json` is the whole result as a
/// compact JSON text.
#[derive(Debug)]
pub struct NavigationItem {
    pub path: String,
    pub line: u64,
    pub json: String,
}

/// The view of a place.
#[verifier::ext_equal]
pub struct PlaceView {
    pub path: Seq<char>,
    pub line: u64,
    pub json: Seq<char>,
}

impl View for NavigationItem {
    type V = PlaceView;

    open spec fn view(&self) -> PlaceView {
        PlaceView { path: self.path@, line: self.line, json: self.json@ }
    }
}

impl Clone for NavigationItem {
    fn clone(&self) -> (r: Self)
        ensures
            r == *self,
    {
        NavigationItem { path: self.path.clone(), line: self.line, json: self.json.clone() }
    }
}

/// The views of a list of places.
pub open spec fn place_views(items: Seq<NavigationItem>) -> Seq<PlaceView> {
    items.map_values(|i: NavigationItem| i@)
}

/// `a` comes strictly before `b`: by path, then by line.
pub open spec fn place_before(a: PlaceView, b: PlaceView) -> bool {
    text_before(a.path, b.path) || (a.path == b.path && a.line < b.line)
}

/// A place put into a sorted list: behind all that do not come after it.
pub open spec fn put_place(sorted: Seq<PlaceView>, new: PlaceView) -> Seq<PlaceView>
    decreases sorted.len(),
{
    if sorted.len() > 0 && place_before(new, sorted.last()) {
        put_place(sorted.drop_last(), new).push(sorted.last())
    } else {
        sorted.push(new)
    }
}

/// The places in order.
pub open spec fn places_ordered(list: Seq<PlaceView>) -> Seq<PlaceView>
    decreases list.len(),
{
    if list.len() == 0 {
        Seq::empty()
    } else {
        put_place(places_ordered(list.drop_last()), list.last())
    }
}

proof fn lemma_put_place_at(sorted: Seq<PlaceView>, new: PlaceView, k: int)
    requires
        0 <= k <= sorted.len(),
        k > 0 ==> !place_before(new, sorted[k - 1]),
        forall|i: int| k <= i < sorted.len() ==> place_before(new, #[trigger] sorted[i]),
    ensures
        put_place(sorted, new) == sorted.insert(k, new),
    decreases sorted.len(),
{
    if k < sorted.len() {
        let t = sorted.drop_last();
        assert forall|i: int| k <= i < t.len() implies place_before(new, #[trigger] t[i]) by {
            assert(t[i] == sorted[i]);
        }
        assert(k > 0 ==> t[k - 1] == sorted[k - 1]);
        assert(place_before(new, sorted[sorted.len() - 1]));
        lemma_put_place_at(t, new, k);
        assert(t.insert(k, new).push(sorted.last()) =~= sorted.insert(k, new));
    } else {
        assert(sorted.insert(k, new) =~= sorted.push(new));
    }
}

fn is_place_before(a: &NavigationItem, b: &NavigationItem) -> (r: bool)
    ensures
        r == place_before(a@, b@),
{
    is_before(a.path.as_str(), b.path.as_str()) || (same(a.path.as_str(), b.path.as_str())
        && a.line < b.line)
}

fn sort_places(list: &Vec<NavigationItem>) -> (r: Vec<NavigationItem>)
    ensures
        place_views(r@) == places_ordered(place_views(list@)),
        r.len() == list.len(),
{
    let ghost all = place_views(list@);
    let mut out: Vec<NavigationItem> = Vec::new();
    let mut i: usize = 0;
    assert(place_views(out@) =~= places_ordered(all.take(0)));
    while i < list.len()
        invariant
            i <= list.len(),
            out.len() == i,
            all == place_views(list@),
            place_views(out@) == places_ordered(all.take(i as int)),
        decreases list.len() - i,
    {
        let item = list[i].clone();
        let mut k: usize = out.len();
        while k > 0 && is_place_before(&item, &out[k - 1])
            invariant
                k <= out.len(),
                forall|j: int| k <= j < out.len() ==> place_before(item@, (#[trigger] out@[j])@),
            decreases k,
        {
            k -= 1;
        }
        proof {
            let now = all.take(i + 1);
            assert(now.drop_last() =~= all.take(i as int));
            assert(now.last() == item@);
            let sorted = place_views(out@);
            assert forall|j: int| k <= j < sorted.len() implies place_before(
                item@,
                #[trigger] sorted[j],
            ) by {
                assert(sorted[j] == out@[j]@);
            }
            assert(k > 0 ==> sorted[k - 1] == out@[k - 1]@);
            lemma_put_place_at(sorted, item@, k as int);
            assert(place_views(out@.insert(k as int, item)) =~= sorted.insert(k as int, item@));
        }
        out.insert(k, item);
        i += 1;
    }
    assert(all.take(i as int) =~= all);
    out
}

/// How many results are shown of `items`, from the `i`-th on, where the ones
/// before it took `bytes`: as many as fit, but the first in any case.
pub open spec fn shown(items: Seq<PlaceView>, i: nat, bytes: nat) -> nat
    decreases items.len() - i,
{
    if i >= items.len() || i >= MAX_RESULTS {
        i
    } else if i > 0 && bytes + byte_len(items[i as int].json) > MAX_OUTPUT_BYTES {
        i
    } else {
        shown(items, i + 1, bytes + byte_len(items[i as int].json))
    }
}

proof fn lemma_shown(items: Seq<PlaceView>, i: nat, bytes: nat)
    requires
        i <= items.len(),
        i <= MAX_RESULTS,
    ensures
        i <= shown(items, i, bytes) <= items.len(),
        shown(items, i, bytes) <= MAX_RESULTS,
    decreases items.len() - i,
{
    if i < items.len() && i < MAX_RESULTS && !(i > 0 && bytes + byte_len(items[i as int].json)
        > MAX_OUTPUT_BYTES) {
        lemma_shown(items, i + 1, bytes + byte_len(items[i as int].json));
    }
}

/// The results that a model is shown.
#[derive(Debug)]
pub struct NavigationPage {
    pub results: Vec<NavigationItem>,
    pub total: usize,
    pub returned: usize,
    pub truncated: bool,
}

/// How many of the sorted places fit.
fn count_shown(items: &Vec<NavigationItem>) -> (r: usize)
    ensures
        r == shown(place_views(items@), 0, 0),
        r <= items.len(),
{
    let ghost views = place_views(items@);
    let mut bytes: usize = 0;
    let mut i: usize = 0;
    proof {
        lemma_shown(views, 0, 0);
    }
    while i < items.len() && i < MAX_RESULTS
        invariant
            i <= items.len(),
            i <= MAX_RESULTS,
            views == place_views(items@),
            views.len() == items.len(),
            shown(views, 0, 0) == shown(views, i as nat, bytes as nat),
            shown(views, 0, 0) <= items.len(),
            i > 1 ==> bytes <= MAX_OUTPUT_BYTES,
            i == 0 ==> bytes == 0,
        decreases items.len() - i,
    {
        let size: usize = byte_count(items[i].json.as_str());
        assert(views[i as int].json == items@[i as int].json@);
        if i > 0 && (bytes > MAX_OUTPUT_BYTES || size > MAX_OUTPUT_BYTES - bytes) {
            return i;
        }
        bytes = bytes + size;
        i += 1;
    }
    i
}

/// The places in order, as many as a model is shown.
pub fn bounded_results(results: &Vec<NavigationItem>) -> (r: NavigationPage)
    ensures
        ({
            let sorted = places_ordered(place_views(results@));
            let n = shown(sorted, 0, 0);
            &&& place_views(r.results@) == sorted.take(n as int)
            &&& r.total == results@.len()
            &&& r.returned == n
            &&& r.truncated == (n < results@.len())
        }),
        r.returned <= MAX_RESULTS,
{
    let mut sorted = sort_places(results);
    let total: usize = sorted.len();
    let n = count_shown(&sorted);
    let ghost views = place_views(sorted@);
    proof {
        lemma_shown(views, 0, 0);
    }
    sorted.truncate(n);
    assert(place_views(sorted@) =~= views.take(n as int));
    NavigationPage { results: sorted, total, returned: n, truncated: n < total }
}

/// A text as JSON, or null.
pub open spec fn json_or_null(text: Option<Seq<char>>) -> Seq<char> {
    match text {
        Some(t) => json_string(t),
        None => "null"@,
    }
}

/// A result as a JSON object, its fields in alphabetical order.
pub open spec fn place_json(
    character: nat,
    line: nat,
    name: Option<Seq<char>>,
    path: Seq<char>,
    snippet: Option<Seq<char>>,
) -> Seq<char> {
    "{\"character\":"@ + decimal(character) + ",\"line\":"@ + decimal(line) + (match name {
        Some(n) => ",\"name\":"@ + json_string(n),
        None => Seq::empty(),
    }) + ",\"path\":"@ + json_string(path) + ",\"snippet\":"@ + json_or_null(snippet) + "}"@
}

fn encode_place(
    character: u64,
    line: u64,
    name: &Option<String>,
    path: &str,
    snippet: &Option<String>,
) -> (r: String)
    ensures
        r@ == place_json(character as nat, line as nat, maybe(*name), path@, maybe(*snippet)),
{
    let mut out: String = "{\"character\":".to_owned();
    out.append(decimal_of(character).as_str());
    out.append(",\"line\":");
    out.append(decimal_of(line).as_str());
    if let Some(n) = name {
        out.append(",\"name\":");
        out.append(json_string_of(n.as_str()).as_str());
    }
    out.append(",\"path\":");
    out.append(json_string_of(path).as_str());
    out.append(",\"snippet\":");
    match snippet {
        Some(text) => {
            out.append(json_string_of(text.as_str()).as_str());
        },
        None => {
            out.append("null");
        },
    }
    out.append("}");
    assert(out@ =~= place_json(
        character as nat,
        line as nat,
        maybe(*name),
        path@,
        maybe(*snippet),
    ));
    out
}

/// The path of a place, where it lies in the workspace.
pub fn location_path(workspace: &str, uri: &str) -> (r: Option<String>)
    ensures
        maybe(r) == (match uri_path(uri@) {
            Some(path) => if lies_within(path, workspace@) {
                Some(path)
            } else {
                None
            },
            None => None,
        }),
{
    let path = match uri_to_path(uri) {
        Some(path) => path,
        None => {
            return None;
        },
    };
    match crate::tools::filesystem::check_within(path.as_str(), workspace, "") {
        Ok(()) => Some(path),
        Err(_) => None,
    }
}

/// `path` seen from `base`, under which it lies.
pub open spec fn relative(path: Seq<char>, base: Seq<char>) -> Seq<char> {
    if begins(path, under(base, Seq::empty())) {
        path.skip(under(base, Seq::empty()).len() as int)
    } else if path == base {
        Seq::empty()
    } else {
        path
    }
}

fn relative_path(path: &str, base: &str) -> (r: String)
    ensures
        r@ == relative(path@, base@),
{
    proof {
        reveal_strlit("");
        assert(""@ =~= Seq::<char>::empty());
    }
    match strip_prefix(path, join_path(base, "").as_str()) {
        Some(rest) => rest,
        None => if same(path, base) {
            String::new()
        } else {
            path.to_owned()
        },
    }
}

/// The `line`-th line of a file, if it can be read and has one.
pub open spec fn snippet_of(content: Option<Seq<char>>, line: nat) -> Option<Seq<char>> {
    match content {
        Some(text) => if line < line_list(text).len() {
            Some(line_list(text)[line as int])
        } else {
            None
        },
        None => None,
    }
}

/// The result for a place in a file: counted from one, with the line that
/// stands there.
pub fn location_item(
    workspace: &str,
    path: &str,
    line: u64,
    character: u64,
    content: Option<String>,
    name: Option<String>,
) -> (r: NavigationItem)
    requires
        line < u64::MAX,
        character < u64::MAX,
    ensures
        r@ == (PlaceView {
            path: relative(path@, workspace@),
            line: (line + 1) as u64,
            json: place_json(
                (character + 1) as nat,
                (line + 1) as nat,
                maybe(name),
                relative(path@, workspace@),
                snippet_of(maybe(content), line as nat),
            ),
        }),
{
    let snippet: Option<String> = match &content {
        Some(text) => {
            let lines = lines_of_text(text.as_str());
            if line < lines.len() as u64 {
                assert(texts(lines@)[line as int] == lines@[line as int]@);
                Some(lines[line as usize].clone())
            } else {
                None
            }
        },
        None => None,
    };
    assert(maybe(snippet) == snippet_of(maybe(content), line as nat));
    let shown = relative_path(path, workspace);
    let json = encode_place(character + 1, line + 1, &name, shown.as_str(), &snippet);
    NavigationItem { path: shown, line: line + 1, json }
}

/// The result for a line that a text search printed: a path, a line number and
/// the line, with colons between them. A line of another form gives none.
pub open spec fn search_place(line: Seq<char>) -> Option<PlaceView> {
    let parts = split_on(line, ':');
    if parts.len() < 2 {
        None
    } else {
        match number(parts[1], usize::MAX as nat) {
            None => None,
            Some(n) => {
                let snippet = if parts.len() == 2 {
                    Seq::empty()
                } else {
                    line.skip((parts[0].len() + parts[1].len() + 2) as int)
                };
                Some(
                    PlaceView {
                        path: parts[0],
                        line: n as u64,
                        json: place_json(1, n, None, parts[0], Some(snippet)),
                    },
                )
            },
        }
    }
}

proof fn lemma_split_head(s: Seq<char>, sep: char, i: int)
    requires
        0 <= i < s.len(),
        s[i] == sep,
        forall|j: int| 0 <= j < i ==> s[j] != sep,
    ensures
        split_on(s, sep) == seq![s.take(i)] + split_on(s.skip(i + 1), sep),
    decreases s.len(),
{
    let t = s.drop_last();
    if i == s.len() - 1 {
        lemma_split_none(t, sep);
        assert(t =~= s.take(i));
        assert(s.skip(i + 1) =~= Seq::<char>::empty());
        assert(split_on(t, sep).push(Seq::empty()) =~= seq![s.take(i)] + split_on(
            s.skip(i + 1),
            sep,
        ));
    } else {
        lemma_split_head(t, sep, i);
        assert(t.take(i) =~= s.take(i));
        let rest = s.skip(i + 1);
        assert(rest.drop_last() =~= t.skip(i + 1));
        assert(rest.last() == s.last());
        crate::text::lemma_split_nonempty(t.skip(i + 1), sep);
        let tail = split_on(t.skip(i + 1), sep);
        let head = seq![s.take(i)];
        if s.last() == sep {
            assert((head + tail).push(Seq::empty()) =~= head + tail.push(Seq::empty()));
        } else {
            assert((head + tail).last() == tail.last());
            assert((head + tail).drop_last() =~= head + tail.drop_last());
            assert((head + tail.drop_last()).push(tail.last().push(s.last())) =~= head
                + tail.drop_last().push(tail.last().push(s.last())));
        }
    }
}

proof fn lemma_split_none(s: Seq<char>, sep: char)
    requires
        forall|j: int| 0 <= j < s.len() ==> s[j] != sep,
    ensures
        split_on(s, sep) == seq![s],
    decreases s.len(),
{
    if s.len() > 0 {
        let t = s.drop_last();
        assert forall|j: int| 0 <= j < t.len() implies t[j] != sep by {
            assert(t[j] == s[j]);
        }
        lemma_split_none(t, sep);
        assert(seq![t].drop_last().push(t.push(s.last())) =~= seq![s]) by {
            assert(t.push(s.last()) =~= s);
        }
    } else {
        assert(s =~= Seq::<char>::empty());
    }
}

/// The first colon at or after `from`.
fn find_colon(chars: &Vec<char>, from: usize) -> (r: usize)
    requires
        from <= chars.len(),
    ensures
        from <= r <= chars.len(),
        forall|j: int| from <= j < r ==> chars@[j] != ':',
        r < chars.len() ==> chars@[r as int] == ':',
{
    let mut i: usize = from;
    while i < chars.len() && chars[i] != ':'
        invariant
            from <= i <= chars.len(),
            forall|j: int| from <= j < i ==> chars@[j] != ':',
        decreases chars.len() - i,
    {
        i += 1;
    }
    i
}

/// The result for a line that a text search printed.
fn read_search_line(line: &str) -> (r: Option<NavigationItem>)
    ensures
        match r {
            Some(item) => search_place(line@) == Some(item@),
            None => search_place(line@) is None,
        },
{
    let chars = chars_of(line);
    let a = find_colon(&chars, 0);
    if a == chars.len() {
        proof {
            lemma_split_none(line@, ':');
        }
        return None;
    }
    let b = find_colon(&chars, a + 1);
    let path = string_of(&chars, 0, a);
    let digits = string_of(&chars, a + 1, b);
    let ghost rest = line@.skip(a + 1);
    proof {
        lemma_split_head(line@, ':', a as int);
        assert(path@ =~= line@.take(a as int));
        assert forall|j: int| 0 <= j < b - a - 1 implies rest[j] != ':' by {
            assert(rest[j] == chars@[j + a + 1]);
        }
        if b < chars.len() {
            assert(rest[b - a - 1] == ':');
            lemma_split_head(rest, ':', b - a - 1);
            assert(digits@ =~= rest.take(b - a - 1));
            crate::text::lemma_split_nonempty(rest.skip(b - a), ':');
        } else {
            lemma_split_none(rest, ':');
            assert(digits@ =~= rest);
        }
        let parts = split_on(line@, ':');
        assert(parts[0] == path@);
        assert(parts[1] == digits@);
        assert(b < chars.len() ==> parts.len() > 2);
        assert(b == chars.len() ==> parts.len() == 2);
    }
    match parse_number(digits.as_str(), usize::MAX as u64) {
        None => None,
        Some(n) => {
            let snippet = if b < chars.len() {
                string_of(&chars, b + 1, chars.len())
            } else {
                String::new()
            };
            proof {
                if b < chars.len() {
                    assert(path@.len() + digits@.len() + 2 == b + 1);
                    assert(snippet@ =~= line@.skip(b + 1));
                } else {
                    assert(snippet@ =~= Seq::<char>::empty());
                }
            }
            let shown = Some(snippet);
            let none: Option<String> = None;
            let json = encode_place(1, n, &none, path.as_str(), &shown);
            Some(NavigationItem { path, line: n, json })
        },
    }
}

/// The results among the lines of a text search, in order.
pub open spec fn search_places(lines: Seq<Seq<char>>) -> Seq<PlaceView>
    decreases lines.len(),
{
    if lines.len() == 0 {
        Seq::empty()
    } else {
        match search_place(lines.last()) {
            Some(place) => search_places(lines.drop_last()).push(place),
            None => search_places(lines.drop_last()),
        }
    }
}

/// The results of a text search that stands in for a language server, as many
/// as a model is shown. The search was cut short where it printed more lines
/// than are shown.
pub fn fallback_results(matches: &str) -> (r: NavigationPage)
    ensures
        ({
            let lines = line_list(matches@);
            let places = search_places(lines);
            let n = shown(places, 0, 0);
            &&& place_views(r.results@) == places.take(n as int)
            &&& r.total == lines.len()
            &&& r.returned == n
            &&& r.truncated == (lines.len() > n)
        }),
        r.returned <= MAX_RESULTS,
{
    let lines = lines_of_text(matches);
    let ghost all = texts(lines@);
    let mut places: Vec<NavigationItem> = Vec::new();
    let mut i: usize = 0;
    assert(place_views(places@) =~= search_places(all.take(0)));
    while i < lines.len()
        invariant
            i <= lines.len(),
            all == texts(lines@),
            place_views(places@) == search_places(all.take(i as int)),
        decreases lines.len() - i,
    {
        proof {
            let now = all.take(i + 1);
            assert(now.drop_last() =~= all.take(i as int));
            assert(now.last() == lines@[i as int]@);
        }
        if let Some(item) = read_search_line(lines[i].as_str()) {
            assert(place_views(places@.push(item)) =~= place_views(places@).push(item@));
            places.push(item);
        }
        i += 1;
    }
    assert(all.take(i as int) =~= all);
    let n = count_shown(&places);
    let ghost views = place_views(places@);
    proof {
        lemma_shown(views, 0, 0);
    }
    places.truncate(n);
    assert(place_views(places@) =~= views.take(n as int));
    NavigationPage {
        results: places,
        total: lines.len(),
        returned: n,
        truncated: lines.len() > n,
    }
}

} // verus!
