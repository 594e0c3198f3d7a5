//! Skills: instructions that a workspace or a user offers to the agent.
use crate::error::{fail, fail_about, Error};
use crate::ids::hex_digit;
use crate::order::{is_before, text_before, text_before_is_transitive, text_order_is_total};
use crate::text::{
    begins, chars_of, copy_list, find, first_place, line_list, lines_of_text, same,
    string_of, strip, stripped, strip_prefix, texts, trim, trimmed,
};
use crate::tools::filesystem::{is_within, lies_within};
use vstd::prelude::*;

verus! {

/// The largest file of a Skill, in bytes.
pub const MAX_SKILL_BYTES: u64 = 65536;

/// The longest name of a Skill, in characters.
pub const MAX_NAME_LENGTH: usize = 64;

/// The longest description of a Skill, in characters.
pub const MAX_DESCRIPTION_LENGTH: usize = 1000;

/// Where a Skill comes from.
#[derive(Debug, Clone, Copy, PartialEq, Eq, Structural)]
pub enum SkillSource {
    Project,
    User,
}

/// The name of a source.
pub open spec fn source_name(s: SkillSource) -> Seq<char> {
    match s {
        SkillSource::Project => "project"@,
        SkillSource::User => "user"@,
    }
}

impl SkillSource {
    /// The name of the source.
    pub fn to_text(self) -> (r: &'static str)
        ensures
            r@ == source_name(self),
    {
        match self {
            SkillSource::Project => "project",
            SkillSource::User => "user",
        }
    }
}

/// What is known of a Skill besides its instructions.
#[derive(Debug)]
pub struct SkillInfo {
    pub name: String,
    pub description: String,
    pub source: SkillSource,
    pub path: String,
    pub digest: String,
    pub disable_model_invocation: bool,
}

/// The view of what is known of a Skill.
#[verifier::ext_equal]
pub struct SkillInfoView {
    pub name: Seq<char>,
    pub description: Seq<char>,
    pub source: SkillSource,
    pub path: Seq<char>,
    pub digest: Seq<char>,
    pub disable_model_invocation: bool,
}

impl View for SkillInfo {
    type V = SkillInfoView;

    open spec fn view(&self) -> SkillInfoView {
        SkillInfoView {
            name: self.name@,
            description: self.description@,
            source: self.source,
            path: self.path@,
            digest: self.digest@,
            disable_model_invocation: self.disable_model_invocation,
        }
    }
}

impl Clone for SkillInfo {
    fn clone(&self) -> (r: Self)
        ensures
            r@ == self@,
    {
        SkillInfo {
            name: self.name.clone(),
            description: self.description.clone(),
            source: self.source,
            path: self.path.clone(),
            digest: self.digest.clone(),
            disable_model_invocation: self.disable_model_invocation,
        }
    }
}

/// A Skill with its instructions.
#[derive(Debug)]
pub struct Skill {
    pub info: SkillInfo,
    pub body: String,
}

/// The view of a Skill.
#[verifier::ext_equal]
pub struct LoadedView {
    pub info: SkillInfoView,
    pub body: Seq<char>,
}

impl View for Skill {
    type V = LoadedView;

    open spec fn view(&self) -> LoadedView {
        LoadedView { info: self.info@, body: self.body@ }
    }
}

/// What was found where the file of a Skill should lie.
#[derive(Debug)]
pub enum SkillFile {
    /// Nothing that can be read; why.
    Unreadable(String),
    /// What the path leads to: its true path, whether it is a file, its size in
    /// bytes and its text, or why one of those cannot be had.
    Found {
        path: String,
        is_file: bool,
        bytes: Result<u64, String>,
        text: Result<String, String>,
    },
}

/// The view of what was found.
pub enum FileView {
    Unreadable(Seq<char>),
    Found {
        path: Seq<char>,
        is_file: bool,
        bytes: Result<u64, Seq<char>>,
        text: Result<Seq<char>, Seq<char>>,
    },
}

impl View for SkillFile {
    type V = FileView;

    open spec fn view(&self) -> FileView {
        match *self {
            SkillFile::Unreadable(m) => FileView::Unreadable(m@),
            SkillFile::Found { path, is_file, bytes, text } => FileView::Found {
                path: path@,
                is_file,
                bytes: match bytes {
                    Ok(n) => Ok(n),
                    Err(m) => Err(m@),
                },
                text: match text {
                    Ok(t) => Ok(t@),
                    Err(m) => Err(m@),
                },
            },
        }
    }
}

/// A character that a name may hold.
pub open spec fn name_char(c: char) -> bool {
    ('a' <= c && c <= 'z') || ('0' <= c && c <= '9') || c == '-'
}

/// A name for a Skill.
pub open spec fn name_is_valid(name: Seq<char>) -> bool {
    &&& 0 < name.len() <= MAX_NAME_LENGTH
    &&& forall|i: int| 0 <= i < name.len() ==> name_char(#[trigger] name[i])
}

/// Whether a name may be one of a Skill.
pub fn valid_name(name: &str) -> (r: bool)
    ensures
        r == name_is_valid(name@),
{
    let chars = chars_of(name);
    if chars.len() == 0 || chars.len() > MAX_NAME_LENGTH {
        return false;
    }
    let mut i: usize = 0;
    while i < chars.len()
        invariant
            i <= chars.len(),
            chars@ == name@,
            forall|j: int| 0 <= j < i ==> name_char(#[trigger] name@[j]),
        decreases chars.len() - i,
    {
        let c = chars[i];
        if !(('a' <= c && c <= 'z') || ('0' <= c && c <= '9') || c == '-') {
            assert(!name_char(name@[i as int]));
            return false;
        }
        i += 1;
    }
    true
}

/// The FNV-1a hash of bytes, in 64 bits.
pub open spec fn fnv1a(bytes: Seq<u8>) -> u64
    decreases bytes.len(),
{
    if bytes.len() == 0 {
        0xcbf29ce484222325
    } else {
        (fnv1a(bytes.drop_last()) ^ (bytes.last() as u64)).wrapping_mul(0x100000001b3)
    }
}

/// The last `n` digits of a number to the base of sixteen.
pub open spec fn hex(value: u64, n: nat) -> Seq<char>
    decreases n,
{
    if n == 0 {
        Seq::empty()
    } else {
        hex(value / 16, (n - 1) as nat).push(hex_digit((value % 16) as u128))
    }
}

/// The fingerprint of a text: the hash of its UTF-8 form.
pub open spec fn digest_of(text: Seq<char>) -> Seq<char> {
    "fnv1a-"@ + hex(fnv1a(vstd::utf8::encode_utf8(text)), 16)
}

/// The sixteen digits of a number to the base of sixteen.
fn hex_of(value: u64) -> (r: String)
    ensures
        r@ == hex(value, 16),
{
    let mut digits: Vec<char> = Vec::new();
    let mut rest: u64 = value;
    let mut n: usize = 0;
    while n < 16
        invariant
            n <= 16,
            digits@.len() == n,
            hex(rest, (16 - n) as nat) + digits@.reverse() == hex(value, 16),
        decreases 16 - n,
    {
        let d: u64 = rest % 16;
        let c: char = if d < 10 {
            (48 + d as u8) as char
        } else {
            (87 + d as u8) as char
        };
        proof {
            assert(c == hex_digit(d as u128));
            assert(digits@.push(c).reverse() =~= seq![c] + digits@.reverse());
            assert(hex(rest, (16 - n) as nat) == hex(rest / 16, (15 - n) as nat).push(c));
            assert(hex(rest / 16, (15 - n) as nat).push(c) + digits@.reverse() =~= hex(
                rest / 16,
                (15 - n) as nat,
            ) + digits@.push(c).reverse());
        }
        digits.push(c);
        rest = rest / 16;
        n += 1;
    }
    let mut out = String::new();
    let mut i: usize = 16;
    while i > 0
        invariant
            i <= 16,
            digits@.len() == 16,
            out@ == digits@.reverse().take(16 - i),
        decreases i,
    {
        i -= 1;
        out.push(digits[i]);
        assert(digits@.reverse().take(16 - i) =~= digits@.reverse().take(15 - i).push(
            digits@[i as int],
        ));
    }
    assert(digits@.reverse().take(16) =~= digits@.reverse());
    assert(hex(rest, 0) + digits@.reverse() =~= digits@.reverse());
    out
}

/// The fingerprint of a text.
pub fn digest(value: &str) -> (r: String)
    ensures
        r@ == digest_of(value@),
{
    let bytes = value.as_bytes();
    let mut hash: u64 = 0xcbf29ce484222325;
    let mut i: usize = 0;
    while i < bytes.len()
        invariant
            i <= bytes.len(),
            hash == fnv1a(bytes@.take(i as int)),
        decreases bytes.len() - i,
    {
        hash = (hash ^ (bytes[i] as u64)).wrapping_mul(0x100000001b3);
        i += 1;
        assert(bytes@.take(i as int).drop_last() =~= bytes@.take(i - 1));
    }
    assert(bytes@.take(i as int) =~= bytes@);
    let mut out: String = "fnv1a-".to_owned();
    out.append(hex_of(hash).as_str());
    out
}

/// The header of a Skill's file and what follows it, or why there is none.
pub open spec fn frontmatter_split(source: Seq<char>) -> Result<(Seq<char>, Seq<char>), Seq<char>> {
    if !begins(source, "---\n"@) {
        Err("SKILL.md must start with YAML frontmatter"@)
    } else {
        let rest = source.skip("---\n"@.len() as int);
        let end = first_place(rest, "\n---\n"@, 0);
        if end == rest.len() {
            Err("SKILL.md frontmatter is not closed"@)
        } else {
            Ok((rest.take(end), rest.skip(end + "\n---\n"@.len())))
        }
    }
}

/// Splits a Skill's file into its header and what follows.
pub fn split_frontmatter(source: &str) -> (r: Result<(String, String), Error>)
    ensures
        match frontmatter_split(source@) {
            Ok((front, body)) => r matches Ok(parts) && parts.0@ == front && parts.1@ == body,
            Err(m) => r matches Err(e) && e@ == m,
        },
{
    let rest = match strip_prefix(source, "---\n") {
        Some(rest) => rest,
        None => {
            return Err(fail("SKILL.md must start with YAML frontmatter"));
        },
    };
    let chars = chars_of(rest.as_str());
    let mark = chars_of("\n---\n");
    proof {
        reveal_strlit("\n---\n");
    }
    match find(&chars, &mark) {
        None => Err(fail("SKILL.md frontmatter is not closed")),
        Some(end) => {
            let total: usize = chars.len();
            assert(end + 5 <= total);
            assert(chars@.subrange(0, end as int) =~= rest@.take(end as int));
            assert(chars@.subrange(end + 5, chars@.len() as int) =~= rest@.skip(end + 5));
            Ok((string_of(&chars, 0, end), string_of(&chars, end + 5, chars.len())))
        },
    }
}

/// A field of a header: its key and its value, without the space and the quotes
/// around them.
pub open spec fn field_of(line: Seq<char>) -> Result<(Seq<char>, Seq<char>), Seq<char>> {
    let k = first_place(line, ":"@, 0);
    if k == line.len() {
        Err("invalid frontmatter line '"@ + line + "'"@)
    } else {
        let key = trimmed(line.take(k));
        if key.len() == 0 {
            Err("frontmatter key cannot be empty"@)
        } else {
            Ok((key, stripped(stripped(trimmed(line.skip(k + 1)), '"'), '\'')))
        }
    }
}

/// The fields of a header, or the first thing that is wrong with it.
pub open spec fn fields_of(lines: Seq<Seq<char>>) -> Result<Map<Seq<char>, Seq<char>>, Seq<char>>
    decreases lines.len(),
{
    if lines.len() == 0 {
        Ok(Map::empty())
    } else {
        match fields_of(lines.drop_last()) {
            Err(m) => Err(m),
            Ok(fields) => match field_of(lines.last()) {
                Err(m) => Err(m),
                Ok((key, value)) => if fields.dom().contains(key) {
                    Err("duplicate frontmatter key '"@ + key + "'"@)
                } else {
                    Ok(fields.insert(key, value))
                },
            },
        }
    }
}

/// A header that has failed goes on failing.
proof fn lemma_fields_fail(lines: Seq<Seq<char>>, k: int)
    requires
        0 <= k <= lines.len(),
        fields_of(lines.take(k)) is Err,
    ensures
        fields_of(lines) == fields_of(lines.take(k)),
    decreases lines.len() - k,
{
    if k < lines.len() {
        assert(lines.take(k + 1).drop_last() =~= lines.take(k));
        lemma_fields_fail(lines, k + 1);
    } else {
        assert(lines.take(k) =~= lines);
    }
}

/// The fields of a header, in the order in which they stand.
#[derive(Debug)]
pub struct Fields {
    keys: Vec<String>,
    values: Vec<String>,
}

impl View for Fields {
    type V = Map<Seq<char>, Seq<char>>;

    closed spec fn view(&self) -> Map<Seq<char>, Seq<char>> {
        Map::new(
            |k: Seq<char>| texts(self.keys@).contains(k),
            |k: Seq<char>| texts(self.values@)[texts(self.keys@).index_of(k)],
        )
    }
}

impl Fields {
    /// Every key has a value, and none occurs twice.
    pub closed spec fn wf(&self) -> bool {
        &&& self.keys@.len() == self.values@.len()
        &&& texts(self.keys@).no_duplicates()
    }

    /// The value of a key.
    pub fn get(&self, key: &str) -> (r: Option<String>)
        requires
            self.wf(),
        ensures
            crate::text::maybe(r) == (if self@.dom().contains(key@) {
                Some(self@[key@])
            } else {
                None
            }),
    {
        let ghost keys = texts(self.keys@);
        let mut i: usize = 0;
        while i < self.keys.len()
            invariant
                self.wf(),
                i <= self.keys.len(),
                keys == texts(self.keys@),
                forall|j: int| 0 <= j < i ==> #[trigger] keys[j] != key@,
            decreases self.keys.len() - i,
        {
            if same(self.keys[i].as_str(), key) {
                assert(keys[i as int] == key@);
                assert(keys.contains(key@));
                assert(keys.index_of(key@) == i);
                return Some(self.values[i].clone());
            }
            i += 1;
        }
        assert(!keys.contains(key@));
        None
    }
}

/// Reads a header.
pub fn parse_frontmatter(source: &str) -> (r: Result<Fields, Error>)
    ensures
        match fields_of(line_list(source@)) {
            Ok(map) => r matches Ok(f) && f.wf() && f@ == map,
            Err(m) => r matches Err(e) && e@ == m,
        },
{
    let lines = lines_of_text(source);
    let ghost all = line_list(source@);
    let mut fields = Fields { keys: Vec::new(), values: Vec::new() };
    assert(all.take(0) =~= Seq::empty());
    assert(fields@ =~= Map::empty());
    let mut i: usize = 0;
    let colon = chars_of(":");
    proof {
        reveal_strlit(":");
    }
    while i < lines.len()
        invariant
            i <= lines.len(),
            all == line_list(source@),
            texts(lines@) == all,
            fields.wf(),
            fields_of(all.take(i as int)) == Ok::<Map<Seq<char>, Seq<char>>, Seq<char>>(fields@),
            colon@ == ":"@,
            colon@.len() == 1,
        decreases lines.len() - i,
    {
        let line = lines[i].as_str();
        let ghost before = fields@;
        proof {
            assert(all[i as int] == line@);
            assert(all.take(i + 1).drop_last() =~= all.take(i as int));
            assert(all.take(i + 1).last() == line@);
            if fields_of(all.take(i + 1)) is Err {
                lemma_fields_fail(all, i + 1);
            }
        }
        let chars = chars_of(line);
        let k = match find(&chars, &colon) {
            Some(k) => k,
            None => {
                return Err(fail_about("invalid frontmatter line '", line, "'"));
            },
        };
        let total: usize = chars.len();
        assert(k + 1 <= total);
        assert(chars@.subrange(0, k as int) =~= line@.take(k as int));
        assert(chars@.subrange(k + 1, chars@.len() as int) =~= line@.skip(k + 1));
        let key = trim(string_of(&chars, 0, k).as_str());
        let bare = trim(string_of(&chars, k + 1, chars.len()).as_str());
        let value = strip(strip(bare.as_str(), '"').as_str(), '\'');
        if key.as_str().is_empty() {
            return Err(fail("frontmatter key cannot be empty"));
        }
        if fields.get(key.as_str()).is_some() {
            return Err(fail_about("duplicate frontmatter key '", key.as_str(), "'"));
        }
        let ghost old_keys = texts(fields.keys@);
        let ghost old_values = texts(fields.values@);
        let ghost k2 = key@;
        let ghost v2 = value@;
        fields.keys.push(key);
        fields.values.push(value);
        proof {
            let keys = texts(fields.keys@);
            assert(keys =~= old_keys.push(k2));
            assert(texts(fields.values@) =~= old_values.push(v2));
            assert(!old_keys.contains(k2));
            assert forall|a: int, b: int| 0 <= a < keys.len() && 0 <= b < keys.len() && a != b implies keys[a]
                != keys[b] by {
                if a < old_keys.len() {
                    assert(old_keys.contains(old_keys[a]));
                }
                if b < old_keys.len() {
                    assert(old_keys.contains(old_keys[b]));
                }
            }
            assert forall|x: Seq<char>| fields@.dom().contains(x) == before.insert(k2, v2).dom().contains(x) by {
                if old_keys.contains(x) {
                    let p = old_keys.index_of(x);
                    assert(keys[p] == x);
                }
                if x == k2 {
                    assert(keys[old_keys.len() as int] == x);
                }
                if keys.contains(x) {
                    let p = keys.index_of(x);
                    if p < old_keys.len() {
                        assert(old_keys[p] == x);
                    }
                }
            }
            assert forall|x: Seq<char>| fields@.dom().contains(x) implies fields@[x] == before.insert(k2, v2)[x] by {
                let p = keys.index_of(x);
                assert(keys[p] == x);
                if x == k2 {
                    assert(keys[old_keys.len() as int] == x);
                    assert(p == old_keys.len());
                } else {
                    assert(old_keys[p] == x);
                    let q = old_keys.index_of(x);
                    assert(keys[q] == x);
                    assert(p == q);
                }
            }
            assert(fields@ =~= before.insert(k2, v2));
        }
        i += 1;
    }
    assert(all.take(i as int) =~= all);
    Ok(fields)
}

/// What the header of a Skill says: its description, and whether the model may
/// not take it up by itself; or what is wrong with it.
pub open spec fn header_of(fields: Map<Seq<char>, Seq<char>>, directory: Seq<char>) -> Result<
    (Seq<char>, bool),
    Seq<char>,
> {
    if !fields.dom().contains("name"@) {
        Err("frontmatter is missing name"@)
    } else if fields["name"@] != directory {
        Err("frontmatter name must match directory name"@)
    } else if !fields.dom().contains("description"@) {
        Err("frontmatter is missing description"@)
    } else if fields["description"@].len() == 0 {
        Err("Skill description cannot be empty"@)
    } else if fields["description"@].len() > MAX_DESCRIPTION_LENGTH {
        Err("Skill description is too long"@)
    } else if !fields.dom().contains("disable-model-invocation"@) {
        Ok((fields["description"@], false))
    } else if fields["disable-model-invocation"@] == "true"@ {
        Ok((fields["description"@], true))
    } else if fields["disable-model-invocation"@] == "false"@ {
        Ok((fields["description"@], false))
    } else {
        Err("disable-model-invocation must be true or false"@)
    }
}

/// The parts of a Skill's text, or what is wrong with it: its description,
/// whether the model may not take it up by itself, and its instructions.
pub open spec fn parsed_skill(text: Seq<char>, directory: Seq<char>) -> Result<
    (Seq<char>, bool, Seq<char>),
    Seq<char>,
> {
    match frontmatter_split(text) {
        Err(m) => Err(m),
        Ok((front, body)) => match fields_of(line_list(front)) {
            Err(m) => Err(m),
            Ok(fields) => match header_of(fields, directory) {
                Err(m) => Err(m),
                Ok((description, disabled)) => Ok((description, disabled, trimmed(body))),
            },
        },
    }
}

/// What keeps a file from being read as a Skill's.
pub open spec fn file_fault(root: Seq<char>, file: FileView, directory: Seq<char>) -> Option<Seq<char>> {
    if !name_is_valid(directory) {
        Some("invalid Skill ID '"@ + directory + "'"@)
    } else {
        match file {
            FileView::Unreadable(m) => Some(m),
            FileView::Found { path, is_file, bytes, text } => if !lies_within(path, root) {
                Some("SKILL.md resolves outside its skills root"@)
            } else if !is_file {
                Some("SKILL.md is not a file"@)
            } else {
                match bytes {
                    Err(m) => Some(m),
                    Ok(n) => if n > MAX_SKILL_BYTES {
                        Some("SKILL.md exceeds 65536 bytes"@)
                    } else {
                        match text {
                            Err(m) => Some(m),
                            Ok(_) => None,
                        }
                    },
                }
            },
        }
    }
}

/// A Skill that was read from a file.
pub open spec fn is_loaded(
    skill: LoadedView,
    file: FileView,
    directory: Seq<char>,
    source: SkillSource,
    parts: (Seq<char>, bool, Seq<char>),
) -> bool {
    file matches FileView::Found { path, is_file: _, bytes: _, text } && text matches Ok(t) && skill
        == (LoadedView {
        info: SkillInfoView {
            name: directory,
            description: parts.0,
            source,
            path,
            digest: digest_of(t),
            disable_model_invocation: parts.1,
        },
        body: parts.2,
    })
}

/// The text of a file.
pub open spec fn file_text(file: FileView) -> Seq<char> {
    file->text->Ok_0
}

/// The outcome of reading a Skill.
pub open spec fn load_outcome(
    root: Seq<char>,
    file: FileView,
    directory: Seq<char>,
    source: SkillSource,
    skill: Option<LoadedView>,
    error: Option<Seq<char>>,
) -> bool {
    match file_fault(root, file, directory) {
        Some(m) => error == Some(m) && skill is None,
        None => match parsed_skill(file_text(file), directory) {
            Err(m) => error == Some(m) && skill is None,
            Ok(parts) => error is None && skill is Some && is_loaded(
                skill->0,
                file,
                directory,
                source,
                parts,
            ),
        },
    }
}

/// The Skill of an outcome.
pub open spec fn loaded(r: Result<Skill, Error>) -> Option<LoadedView> {
    match r {
        Ok(s) => Some(s@),
        Err(_) => None,
    }
}

/// The message of an outcome.
pub open spec fn fault<T>(r: Result<T, Error>) -> Option<Seq<char>> {
    match r {
        Ok(_) => None,
        Err(e) => Some(e@),
    }
}

/// What the header of a Skill says.
fn read_header(fields: &Fields, directory: &str) -> (r: Result<(String, bool), Error>)
    requires
        fields.wf(),
    ensures
        match header_of(fields@, directory@) {
            Ok((description, disabled)) => r matches Ok(h) && h.0@ == description && h.1 == disabled,
            Err(m) => r matches Err(e) && e@ == m,
        },
{
    let name = match fields.get("name") {
        Some(name) => name,
        None => {
            return Err(fail("frontmatter is missing name"));
        },
    };
    if !same(name.as_str(), directory) {
        return Err(fail("frontmatter name must match directory name"));
    }
    let description = match fields.get("description") {
        Some(description) => description,
        None => {
            return Err(fail("frontmatter is missing description"));
        },
    };
    let length: usize = description.as_str().unicode_len();
    if length == 0 {
        return Err(fail("Skill description cannot be empty"));
    }
    if length > MAX_DESCRIPTION_LENGTH {
        return Err(fail("Skill description is too long"));
    }
    match fields.get("disable-model-invocation") {
        None => Ok((description, false)),
        Some(value) => if same(value.as_str(), "true") {
            Ok((description, true))
        } else if same(value.as_str(), "false") {
            Ok((description, false))
        } else {
            Err(fail("disable-model-invocation must be true or false"))
        },
    }
}

/// Reads a Skill from what was found in its directory. `root` is the true path
/// of the directory of all Skills, `directory_name` the name of this one's.
pub fn load_skill(root: &str, file: SkillFile, directory_name: &str, source: SkillSource) -> (r:
    Result<Skill, Error>)
    ensures
        load_outcome(root@, file@, directory_name@, source, loaded(r), fault(r)),
{
    let ghost found = file;
    if !valid_name(directory_name) {
        return Err(fail_about("invalid Skill ID '", directory_name, "'"));
    }
    match file {
        SkillFile::Unreadable(message) => Err(Error { message }),
        SkillFile::Found { path, is_file, bytes, text } => {
            if !is_within(path.as_str(), root) {
                return Err(fail("SKILL.md resolves outside its skills root"));
            }
            if !is_file {
                return Err(fail("SKILL.md is not a file"));
            }
            let size: u64 = match bytes {
                Ok(n) => n,
                Err(message) => {
                    return Err(Error { message });
                },
            };
            if size > MAX_SKILL_BYTES {
                return Err(fail("SKILL.md exceeds 65536 bytes"));
            }
            let source_text = match text {
                Ok(text) => text,
                Err(message) => {
                    return Err(Error { message });
                },
            };
            assert(file_fault(root@, found@, directory_name@) is None);
            assert(file_text(found@) == source_text@);
            let (front, body) = match split_frontmatter(source_text.as_str()) {
                Ok(parts) => parts,
                Err(e) => {
                    return Err(e);
                },
            };
            let fields = match parse_frontmatter(front.as_str()) {
                Ok(fields) => fields,
                Err(e) => {
                    return Err(e);
                },
            };
            let (description, disabled) = match read_header(&fields, directory_name) {
                Ok(header) => header,
                Err(e) => {
                    return Err(e);
                },
            };
            let skill = Skill {
                info: SkillInfo {
                    name: directory_name.to_owned(),
                    description,
                    source,
                    path,
                    digest: digest(source_text.as_str()),
                    disable_model_invocation: disabled,
                },
                body: trim(body.as_str()),
            };
            assert(is_loaded(
                skill@,
                found@,
                directory_name@,
                source,
                (description@, disabled, skill.body@),
            ));
            Ok(skill)
        },
    }
}

/// All Skills that were found, by name, and what was wrong with the others.
#[derive(Debug)]
pub struct SkillRegistry {
    skills: Vec<Skill>,
    warnings: Vec<String>,
}

/// The view of a registry.
#[verifier::ext_equal]
pub struct SkillsView {
    pub skills: Seq<LoadedView>,
    pub warnings: Seq<Seq<char>>,
}

impl View for SkillRegistry {
    type V = SkillsView;

    closed spec fn view(&self) -> SkillsView {
        SkillsView { skills: loaded_views(self.skills@), warnings: texts(self.warnings@) }
    }
}

/// The views of Skills.
pub open spec fn loaded_views(v: Seq<Skill>) -> Seq<LoadedView> {
    v.map_values(|s: Skill| s@)
}

/// Skills stand in the order of their names, and no name occurs twice.
pub open spec fn by_name(s: Seq<LoadedView>) -> bool {
    forall|i: int, j: int|
        #![trigger s[i], s[j]]
        0 <= i < j < s.len() ==> text_before(s[i].info.name, s[j].info.name)
}

/// What is known of Skills stands in the order of their names, and no name
/// occurs twice.
pub open spec fn in_name_order(list: Seq<SkillInfo>) -> bool {
    forall|i: int, j: int|
        #![trigger list[i], list[j]]
        0 <= i < j < list.len() ==> text_before(list[i].name@, list[j].name@)
}

/// A Skill put among others: in its place by name, unless its name is taken.
pub open spec fn placed(s: Seq<LoadedView>, new: LoadedView) -> Seq<LoadedView>
    decreases s.len(),
{
    if s.len() == 0 {
        seq![new]
    } else if text_before(s[0].info.name, new.info.name) {
        seq![s[0]] + placed(s.drop_first(), new)
    } else if s[0].info.name == new.info.name {
        s
    } else {
        seq![new] + s
    }
}

/// The Skill of a name.
pub open spec fn skill_named(s: Seq<LoadedView>, name: Seq<char>) -> Option<LoadedView>
    decreases s.len(),
{
    if s.len() == 0 {
        None
    } else if s[0].info.name == name {
        Some(s[0])
    } else {
        skill_named(s.drop_first(), name)
    }
}

proof fn lemma_placed(s: Seq<LoadedView>, new: LoadedView, k: int)
    requires
        0 <= k <= s.len(),
        forall|j: int| 0 <= j < k ==> text_before((#[trigger] s[j]).info.name, new.info.name),
        k < s.len() ==> !text_before(s[k].info.name, new.info.name),
    ensures
        placed(s, new) == (if k < s.len() && s[k].info.name == new.info.name {
            s
        } else {
            s.insert(k, new)
        }),
    decreases k,
{
    if k == 0 {
        if s.len() > 0 {
            assert(seq![new] + s =~= s.insert(0, new));
        } else {
            assert(seq![new] =~= s.insert(0, new));
        }
    } else {
        let rest = s.drop_first();
        assert(text_before(s[0].info.name, new.info.name));
        assert forall|j: int| 0 <= j < k - 1 implies text_before(
            (#[trigger] rest[j]).info.name,
            new.info.name,
        ) by {
            assert(s[j + 1] == rest[j]);
        }
        lemma_placed(rest, new, k - 1);
        if k < s.len() && s[k].info.name == new.info.name {
            assert(seq![s[0]] + rest =~= s);
        } else {
            assert(seq![s[0]] + rest.insert(k - 1, new) =~= s.insert(k, new));
        }
    }
}

proof fn lemma_named(s: Seq<LoadedView>, name: Seq<char>, k: int)
    requires
        0 <= k < s.len(),
        s[k].info.name == name,
        forall|j: int| 0 <= j < k ==> (#[trigger] s[j]).info.name != name,
    ensures
        skill_named(s, name) == Some(s[k]),
    decreases k,
{
    if k > 0 {
        assert(s[0].info.name != name);
        assert forall|j: int| 0 <= j < k - 1 implies (#[trigger] s.drop_first()[j]).info.name != name by {
            assert(s[j + 1] == s.drop_first()[j]);
        }
        lemma_named(s.drop_first(), name, k - 1);
    }
}

proof fn lemma_not_named(s: Seq<LoadedView>, name: Seq<char>)
    requires
        forall|j: int| 0 <= j < s.len() ==> (#[trigger] s[j]).info.name != name,
    ensures
        skill_named(s, name) is None,
    decreases s.len(),
{
    if s.len() > 0 {
        assert(s[0].info.name != name);
        assert forall|j: int| 0 <= j < s.drop_first().len() implies (#[trigger] s.drop_first()[j]).info.name
            != name by {
            assert(s[j + 1] == s.drop_first()[j]);
        }
        lemma_not_named(s.drop_first(), name);
    }
}

/// The names of Skills in order are all different, and exactly the Skills that
/// are listed are found by their names.
pub proof fn the_listed_skills_are_found(s: Seq<LoadedView>, name: Seq<char>)
    requires
        by_name(s),
    ensures
        forall|i: int, j: int|
            #![trigger s[i], s[j]]
            0 <= i < j < s.len() ==> s[i].info.name != s[j].info.name,
        forall|i: int|
            0 <= i < s.len() ==> skill_named(s, (#[trigger] s[i]).info.name) == Some(s[i]),
        skill_named(s, name) is Some <==> exists|i: int|
            0 <= i < s.len() && (#[trigger] s[i]).info.name == name,
{
    assert forall|i: int, j: int|
        #![trigger s[i], s[j]]
        0 <= i < j < s.len() implies s[i].info.name != s[j].info.name by {
        text_order_is_total(s[i].info.name, s[j].info.name);
    }
    assert forall|i: int| 0 <= i < s.len() implies skill_named(s, (#[trigger] s[i]).info.name)
        == Some(s[i]) by {
        lemma_named(s, s[i].info.name, i);
    }
    if !(exists|i: int| 0 <= i < s.len() && (#[trigger] s[i]).info.name == name) {
        lemma_not_named(s, name);
    }
}

/// A Skill that was found first stays: another of its name does not replace it,
/// and one of another name leaves it where it is. So what a project offers, which is
/// looked for first, is never replaced by what a user offers.
pub proof fn the_first_skill_stays(s: Seq<LoadedView>, new: LoadedView, name: Seq<char>)
    requires
        by_name(s),
    ensures
        by_name(placed(s, new)),
        skill_named(s, name) is Some ==> skill_named(placed(s, new), name) == skill_named(s, name),
        skill_named(s, new.info.name) is None ==> skill_named(placed(s, new), new.info.name) == Some(
            new,
        ),
    decreases s.len(),
{
    if s.len() > 0 {
        let rest = s.drop_first();
        assert forall|i: int, j: int| 0 <= i < j < rest.len() implies text_before(
            #[trigger] rest[i].info.name,
            #[trigger] rest[j].info.name,
        ) by {
            assert(rest[i] == s[i + 1] && rest[j] == s[j + 1]);
        }
        the_first_skill_stays(rest, new, name);
        let p = placed(s, new);
        if text_before(s[0].info.name, new.info.name) {
            let q = placed(rest, new);
            assert(p.drop_first() =~= q);
            text_order_is_total(s[0].info.name, new.info.name);
            lemma_placed_members(rest, new);
            assert forall|i: int, j: int| 0 <= i < j < p.len() implies text_before(
                #[trigger] p[i].info.name,
                #[trigger] p[j].info.name,
            ) by {
                assert(p[j] == q[j - 1]);
                if i > 0 {
                    assert(p[i] == q[i - 1]);
                    assert(text_before(q[i - 1].info.name, q[j - 1].info.name));
                } else if rest.contains(q[j - 1]) {
                    let m = rest.index_of(q[j - 1]);
                    assert(s[m + 1] == q[j - 1]);
                    assert(text_before(s[0].info.name, s[m + 1].info.name));
                }
            }
        } else if s[0].info.name != new.info.name {
            text_order_is_total(s[0].info.name, new.info.name);
            assert(p.drop_first() =~= s);
            assert forall|i: int, j: int| 0 <= i < j < p.len() implies text_before(
                #[trigger] p[i].info.name,
                #[trigger] p[j].info.name,
            ) by {
                assert(p[j] == s[j - 1]);
                if i > 0 {
                    assert(p[i] == s[i - 1]);
                    assert(text_before(s[i - 1].info.name, s[j - 1].info.name));
                } else if j > 1 {
                    assert(text_before(s[0].info.name, s[j - 1].info.name));
                    text_before_is_transitive(new.info.name, s[0].info.name, s[j - 1].info.name);
                }
            }
            if skill_named(s, name) is Some && name == new.info.name {
                lemma_later_names(s, new.info.name);
            }
        }
    }
}

/// What is put among others is one of them or the new one.
proof fn lemma_placed_members(s: Seq<LoadedView>, new: LoadedView)
    ensures
        forall|j: int|
            0 <= j < placed(s, new).len() ==> #[trigger] placed(s, new)[j] == new || s.contains(
                placed(s, new)[j],
            ),
    decreases s.len(),
{
    let p = placed(s, new);
    if s.len() > 0 {
        lemma_placed_members(s.drop_first(), new);
        assert forall|j: int| 0 <= j < p.len() implies #[trigger] p[j] == new || s.contains(p[j]) by {
            if text_before(s[0].info.name, new.info.name) {
                if j == 0 {
                    assert(s[0] == p[0]);
                } else {
                    let q = placed(s.drop_first(), new);
                    assert(p[j] == q[j - 1]);
                    if q[j - 1] != new {
                        let m = s.drop_first().index_of(q[j - 1]);
                        assert(s[m + 1] == q[j - 1]);
                    }
                }
            } else if s[0].info.name == new.info.name {
                assert(s[j] == p[j]);
            } else if j > 0 {
                assert(s[j - 1] == p[j]);
            }
        }
    }
}

/// A name before the first one is not among the names.
proof fn lemma_later_names(s: Seq<LoadedView>, name: Seq<char>)
    requires
        s.len() > 0,
        by_name(s),
        text_before(name, s[0].info.name),
    ensures
        skill_named(s, name) is None,
{
    assert forall|j: int| 0 <= j < s.len() implies (#[trigger] s[j]).info.name != name by {
        text_order_is_total(name, s[0].info.name);
        if j > 0 {
            assert(text_before(s[0].info.name, s[j].info.name));
            text_before_is_transitive(name, s[0].info.name, s[j].info.name);
            text_order_is_total(name, s[j].info.name);
        }
    }
    lemma_not_named(s, name);
}

/// What a registry says of a Skill that cannot be read.
pub open spec fn skill_warning(source: SkillSource, directory: Seq<char>, message: Seq<char>) -> Seq<char> {
    "skip invalid "@ + source_name(source) + " Skill "@ + directory + ": "@ + message
}

/// A registry after one more directory was looked at.
pub open spec fn considered(
    old: SkillsView,
    new: SkillsView,
    directory: Seq<char>,
    source: SkillSource,
    skill: Option<LoadedView>,
    error: Option<Seq<char>>,
) -> bool {
    match error {
        Some(m) => new == (SkillsView {
            warnings: old.warnings.push(skill_warning(source, directory, m)),
            ..old
        }),
        None => skill is Some && new == (SkillsView {
            skills: placed(old.skills, skill->0),
            ..old
        }),
    }
}

/// There is an outcome of reading the Skill that explains the new registry.
pub open spec fn considered_file(
    old: SkillsView,
    new: SkillsView,
    root: Seq<char>,
    directory: Seq<char>,
    name: Seq<char>,
    file: FileView,
    source: SkillSource,
) -> bool {
    exists|skill: Option<LoadedView>, error: Option<Seq<char>>| #[trigger]
        load_outcome(root, file, name, source, skill, error) && considered(
            old,
            new,
            directory,
            source,
            skill,
            error,
        )
}

impl Default for SkillRegistry {
    fn default() -> (r: Self)
        ensures
            r.wf(),
            r@ == (SkillsView { skills: Seq::empty(), warnings: Seq::empty() }),
    {
        let out = SkillRegistry { skills: Vec::new(), warnings: Vec::new() };
        assert(out@ =~= SkillsView { skills: Seq::empty(), warnings: Seq::empty() });
        out
    }
}

impl SkillRegistry {
    /// The Skills stand in the order of their names.
    pub open spec fn wf(&self) -> bool {
        by_name(self@.skills)
    }

    /// What is known of all Skills, in the order of their names.
    pub fn list(&self) -> (r: Vec<SkillInfo>)
        ensures
            r@.map_values(|i: SkillInfo| i@) == self@.skills.map_values(|s: LoadedView| s.info),
            self.wf() ==> in_name_order(r@),
    {
        let mut out: Vec<SkillInfo> = Vec::new();
        let ghost infos = self@.skills.map_values(|s: LoadedView| s.info);
        let mut i: usize = 0;
        while i < self.skills.len()
            invariant
                i <= self.skills.len(),
                infos == self@.skills.map_values(|s: LoadedView| s.info),
                out@.map_values(|i: SkillInfo| i@) == infos.take(i as int),
            decreases self.skills.len() - i,
        {
            let info = self.skills[i].info.clone();
            assert(out@.push(info).map_values(|i: SkillInfo| i@) =~= out@.map_values(
                |i: SkillInfo| i@,
            ).push(info@));
            out.push(info);
            i += 1;
            assert(infos.take(i as int) =~= infos.take(i - 1).push(infos[i - 1]));
        }
        assert(infos.take(i as int) =~= infos);
        proof {
            if self.wf() {
                let views = out@.map_values(|i: SkillInfo| i@);
                assert forall|i: int, j: int|
                    #![trigger out@[i], out@[j]]
                    0 <= i < j < out@.len() implies text_before(out@[i].name@, out@[j].name@) by {
                    assert(views[i] == out@[i]@ && views[j] == out@[j]@);
                    assert(infos[i] == self@.skills[i].info && infos[j] == self@.skills[j].info);
                }
            }
        }
        out
    }

    /// What was wrong with the Skills that could not be read.
    pub fn warnings(&self) -> (r: Vec<String>)
        ensures
            texts(r@) == self@.warnings,
    {
        copy_list(&self.warnings)
    }

    /// Where a Skill stands.
    fn slot(&self, name: &str) -> (r: Option<usize>)
        ensures
            match r {
                Some(i) => i < self.skills@.len() && skill_named(self@.skills, name@) == Some(
                    self.skills@[i as int]@,
                ),
                None => skill_named(self@.skills, name@) is None,
            },
    {
        let mut i: usize = 0;
        while i < self.skills.len()
            invariant
                i <= self.skills.len(),
                forall|j: int|
                    0 <= j < i ==> (#[trigger] loaded_views(self.skills@)[j]).info.name != name@,
            decreases self.skills.len() - i,
        {
            if same(self.skills[i].info.name.as_str(), name) {
                proof {
                    lemma_named(loaded_views(self.skills@), name@, i as int);
                }
                return Some(i);
            }
            i += 1;
        }
        proof {
            lemma_not_named(loaded_views(self.skills@), name@);
        }
        None
    }

    /// What is known of a Skill.
    pub fn get(&self, name: &str) -> (r: Option<&SkillInfo>)
        ensures
            match skill_named(self@.skills, name@) {
                Some(s) => r matches Some(info) && info@ == s.info,
                None => r is None,
            },
    {
        match self.slot(name) {
            Some(i) => Some(&self.skills[i].info),
            None => None,
        }
    }

    /// The instructions of a Skill.
    pub fn body(&self, name: &str) -> (r: Option<&str>)
        ensures
            match skill_named(self@.skills, name@) {
                Some(s) => r matches Some(body) && body@ == s.body,
                None => r is None,
            },
    {
        match self.slot(name) {
            Some(i) => Some(self.skills[i].body.as_str()),
            None => None,
        }
    }

    /// Takes a Skill in, unless its name is taken.
    fn insert(&mut self, skill: Skill)
        requires
            old(self).wf(),
        ensures
            final(self).wf(),
            final(self)@ == (SkillsView {
                skills: placed(old(self)@.skills, skill@),
                ..old(self)@
            }),
    {
        let ghost views = loaded_views(self.skills@);
        let mut i: usize = 0;
        while i < self.skills.len() && is_before(
            self.skills[i].info.name.as_str(),
            skill.info.name.as_str(),
        )
            invariant
                i <= self.skills.len(),
                views == loaded_views(self.skills@),
                forall|j: int|
                    0 <= j < i ==> text_before((#[trigger] views[j]).info.name, skill@.info.name),
            decreases self.skills.len() - i,
        {
            i += 1;
        }
        proof {
            lemma_placed(views, skill@, i as int);
            the_first_skill_stays(views, skill@, skill@.info.name);
        }
        if i < self.skills.len() && same(
            self.skills[i].info.name.as_str(),
            skill.info.name.as_str(),
        ) {
            return;
        }
        let ghost view = skill@;
        self.skills.insert(i, skill);
        assert(loaded_views(self.skills@) =~= views.insert(i as int, view));
    }

    /// Looks at one directory: its Skill is taken in, or what is wrong with it
    /// is kept as a warning. `root` is the true path of the directory of all
    /// Skills, `directory` the path of this one's and `name` its name.
    pub fn consider(
        &mut self,
        root: &str,
        directory: &str,
        name: &str,
        file: SkillFile,
        source: SkillSource,
    )
        requires
            old(self).wf(),
        ensures
            final(self).wf(),
            considered_file(
                old(self)@,
                final(self)@,
                root@,
                directory@,
                name@,
                file@,
                source,
            ),
    {
        match load_skill(root, file, name, source) {
            Ok(skill) => {
                assert(load_outcome(root@, file@, name@, source, Some(skill@), None));
                self.insert(skill);
                assert(considered(old(self)@, self@, directory@, source, Some(skill@), None));
            },
            Err(error) => {
                assert(load_outcome(root@, file@, name@, source, None, Some(error@)));
                let mut text: String = "skip invalid ".to_owned();
                text.append(source.to_text());
                text.append(" Skill ");
                text.append(directory);
                text.append(": ");
                text.append(error.message.as_str());
                proof {
                    crate::text::lemma_texts_push(self.warnings@, text);
                }
                self.warnings.push(text);
                assert(self@ =~= SkillsView {
                    warnings: old(self)@.warnings.push(
                        skill_warning(source, directory@, error@),
                    ),
                    ..old(self)@
                });
                assert(considered(old(self)@, self@, directory@, source, None, Some(error@)));
            },
        }
    }
}

} // verus!
