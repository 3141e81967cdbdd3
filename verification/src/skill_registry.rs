//! The public skills.sh skill registry: its URLs, its payloads and the checks
//! a downloaded skill must pass.
//!
//! Two endpoints back the whole browse-and-install experience and neither
//! requires credentials:
//!
//! - `GET /api/search?q=<query>&limit=<n>[&owner=<owner>]` — ranked skill hits
//! - `GET /api/download/<owner>/<repo>/<slug>` — the skill's file tree
//!
//! `GROK_SKILLS_REGISTRY_URL` overrides the base URL so an air-gapped or
//! self-hosted mirror can serve the same shapes. This module builds the
//! requests and judges the replies; the transfer itself is done by the caller.

use std::time::Duration;
use vstd::prelude::*;
use vstd::utf8::encode_utf8;
use crate::skill_source::{opt_ref_view, opt_str_view};
use crate::skill_validate::{join_within_spec, push_parts};
use crate::order::{lemma_lex_irreflexive, lemma_lex_transitive, lemma_lex_trichotomy, lex_less_str, lex_le, lex_lt};
use crate::text::{
    any_control, append_chars, chars_of, contains_char, contains_char_exec, decimal, decimal_chars,
    drop_empty_exec, eq_chars, is_control, lower_exec, lower_seq, nonempty_pieces, push_str_chars,
    replace_char, replace_char_exec, rfind_char, rfind_char_exec, split_class, split_class_exec,
    string_of, tail, trim, trim_class, trim_class_exec, trim_end_class, trim_end_class_exec,
    trim_ws, views, CharClass,
};

verus! {

/// Default registry origin. Overridden by `GROK_SKILLS_REGISTRY_URL`.
pub const DEFAULT_REGISTRY_URL: &'static str = "https://skills.sh";

/// Environment variable that points the client at a different registry.
pub const REGISTRY_URL_ENV: &'static str = "GROK_SKILLS_REGISTRY_URL";

/// Upper bound on results the registry search endpoint will return.
pub const MAX_SEARCH_LIMIT: usize = 200;

/// Cap on a single downloaded file, mirroring the registry's own 2 MB limit.
pub const MAX_FILE_BYTES: usize = 2097152;

/// Cap on the total size of one downloaded skill.
pub const MAX_SKILL_BYTES: usize = 33554432;

/// Cap on how many files one skill may contain.
pub const MAX_SKILL_FILES: usize = 2000;

// ---------------------------------------------------------------------------
// Errors
// ---------------------------------------------------------------------------

/// Errors returned by registry operations.
#[derive(Debug, Clone, PartialEq, Eq)]
pub enum RegistryError {
    QueryTooShort,
    NotFound(String),
    Transport(String),
    Status { status: u16, url: String },
    Malformed(String),
    TooLarge { name: String, limit: usize },
    UnsafePath { name: String, path: String },
}

/// A registry error with its texts as character sequences.
pub enum RegistryErrorView {
    QueryTooShort,
    NotFound(Seq<char>),
    Transport(Seq<char>),
    Status { status: u16, url: Seq<char> },
    Malformed(Seq<char>),
    TooLarge { name: Seq<char>, limit: usize },
    UnsafePath { name: Seq<char>, path: Seq<char> },
}

impl View for RegistryError {
    type V = RegistryErrorView;

    open spec fn view(&self) -> RegistryErrorView {
        match self {
            RegistryError::QueryTooShort => RegistryErrorView::QueryTooShort,
            RegistryError::NotFound(s) => RegistryErrorView::NotFound(s@),
            RegistryError::Transport(s) => RegistryErrorView::Transport(s@),
            RegistryError::Status { status, url } => RegistryErrorView::Status {
                status: *status,
                url: url@,
            },
            RegistryError::Malformed(s) => RegistryErrorView::Malformed(s@),
            RegistryError::TooLarge { name, limit } => RegistryErrorView::TooLarge {
                name: name@,
                limit: *limit,
            },
            RegistryError::UnsafePath { name, path } => RegistryErrorView::UnsafePath {
                name: name@,
                path: path@,
            },
        }
    }
}

impl RegistryErrorView {
    /// The sentence shown to the user for this error.
    pub open spec fn message(self) -> Seq<char> {
        match self {
            RegistryErrorView::QueryTooShort => "search query must be at least 2 characters"@,
            RegistryErrorView::NotFound(s) => "skill `"@ + s + "` was not found in the registry"@,
            RegistryErrorView::Transport(s) => "registry request failed: "@ + s,
            RegistryErrorView::Status { status, url } => "registry returned HTTP "@ + decimal(
                status as nat,
            ) + " for "@ + url,
            RegistryErrorView::Malformed(s) => "registry returned a malformed response: "@ + s,
            RegistryErrorView::TooLarge { name, limit } => "skill `"@ + name + "` exceeds the "@
                + decimal(limit as nat) + " byte download limit"@,
            RegistryErrorView::UnsafePath { name, path } => "skill `"@ + name
                + "` contains an unsafe file path `"@ + path + "`"@,
        }
    }
}

impl RegistryError {
    /// The sentence shown to the user for this error.
    pub fn message(&self) -> (r: String)
        ensures
            r@ == self@.message(),
    {
        let mut v: Vec<char> = Vec::new();
        match self {
            RegistryError::QueryTooShort => {
                push_str_chars(&mut v, "search query must be at least 2 characters");
            },
            RegistryError::NotFound(s) => {
                push_str_chars(&mut v, "skill `");
                push_str_chars(&mut v, s.as_str());
                push_str_chars(&mut v, "` was not found in the registry");
            },
            RegistryError::Transport(s) => {
                push_str_chars(&mut v, "registry request failed: ");
                push_str_chars(&mut v, s.as_str());
            },
            RegistryError::Status { status, url } => {
                push_str_chars(&mut v, "registry returned HTTP ");
                let d = decimal_chars(*status as u64);
                append_chars(&mut v, &d);
                push_str_chars(&mut v, " for ");
                push_str_chars(&mut v, url.as_str());
            },
            RegistryError::Malformed(s) => {
                push_str_chars(&mut v, "registry returned a malformed response: ");
                push_str_chars(&mut v, s.as_str());
            },
            RegistryError::TooLarge { name, limit } => {
                push_str_chars(&mut v, "skill `");
                push_str_chars(&mut v, name.as_str());
                push_str_chars(&mut v, "` exceeds the ");
                let d = decimal_chars(*limit as u64);
                append_chars(&mut v, &d);
                push_str_chars(&mut v, " byte download limit");
            },
            RegistryError::UnsafePath { name, path } => {
                push_str_chars(&mut v, "skill `");
                push_str_chars(&mut v, name.as_str());
                push_str_chars(&mut v, "` contains an unsafe file path `");
                push_str_chars(&mut v, path.as_str());
                push_str_chars(&mut v, "`");
            },
        }
        string_of(&v)
    }
}

// ---------------------------------------------------------------------------
// Payloads
// ---------------------------------------------------------------------------

/// One skill returned by a registry search.
#[derive(Debug, Clone, PartialEq, Eq)]
pub struct RegistrySkill {
    /// Stable `{source}/{slug}` identifier.
    pub id: String,
    /// URL-safe slug within its source.
    pub slug: String,
    /// Human-readable name.
    pub name: String,
    /// Owning repository (`owner/repo`) or well-known domain.
    pub source: String,
    /// Total deduplicated install count.
    pub installs: u64,
}

/// A search hit with its texts as character sequences.
pub struct SkillView {
    pub id: Seq<char>,
    pub slug: Seq<char>,
    pub name: Seq<char>,
    pub source: Seq<char>,
    pub installs: u64,
}

impl View for RegistrySkill {
    type V = SkillView;

    open spec fn view(&self) -> SkillView {
        SkillView {
            id: self.id@,
            slug: self.slug@,
            name: self.name@,
            source: self.source@,
            installs: self.installs,
        }
    }
}

impl RegistrySkill {
    /// The skill's page on the registry website at `base_url`.
    pub fn page_url(&self, base_url: &str) -> (r: String)
        ensures
            r@ == base_url@ + seq!['/'] + self.id@,
    {
        let mut v = chars_of(base_url);
        v.push('/');
        push_str_chars(&mut v, self.id.as_str());
        string_of(&v)
    }

    /// The source string a user would pass to `grok skill install`.
    pub fn install_spec(&self) -> (r: String)
        ensures
            r@ == self.id@,
    {
        self.id.clone()
    }
}

/// A single file inside a downloaded skill.
#[derive(Debug, Clone, PartialEq, Eq)]
pub struct RegistryFile {
    /// Path relative to the skill root, always using `/` separators.
    pub path: String,
    /// Full text contents.
    pub contents: String,
}

/// A skill's complete file tree as served by the registry.
#[derive(Debug, Clone, PartialEq, Eq)]
pub struct RegistrySkillFiles {
    /// Files that make up the skill.
    pub files: Vec<RegistryFile>,
    /// Content hash the registry computed, used to detect upstream changes.
    pub hash: Option<String>,
}

/// Number of bytes in the UTF-8 encoding of `s`.
pub open spec fn byte_len(s: Seq<char>) -> nat {
    encode_utf8(s).len()
}

/// Total byte size of the files' contents.
pub open spec fn bytes_total(files: Seq<RegistryFile>) -> nat
    decreases files.len(),
{
    if files.len() == 0 {
        0
    } else {
        bytes_total(files.drop_last()) + byte_len(files.last().contents@)
    }
}

/// Whether a path names the skill's entry point, compared without ASCII case.
pub open spec fn is_skill_md_path(p: Seq<char>) -> bool {
    lower_seq(p) == "skill.md"@
}

proof fn lemma_bytes_total_prefix(files: Seq<RegistryFile>, i: int)
    requires
        0 <= i <= files.len(),
    ensures
        bytes_total(files.subrange(0, i)) <= bytes_total(files),
    decreases files.len(),
{
    if i < files.len() {
        assert(files.drop_last().subrange(0, i) =~= files.subrange(0, i));
        lemma_bytes_total_prefix(files.drop_last(), i);
    } else {
        assert(files.subrange(0, i) =~= files);
    }
}

/// Byte length of a string, as `str::len` counts it.
fn str_byte_len(s: &str) -> (r: usize)
    requires
        byte_len(s@) <= usize::MAX,
    ensures
        r == byte_len(s@),
{
    s.len()
}

impl RegistrySkillFiles {
    /// Locate the skill's `SKILL.md`: the first file whose path is `SKILL.md`
    /// in any ASCII case.
    pub fn skill_md(&self) -> (r: Option<&RegistryFile>)
        ensures
            r is Some <==> exists|i: int|
                0 <= i < self.files@.len() && is_skill_md_path(#[trigger] self.files@[i].path@),
            r matches Some(f) ==> exists|i: int|
                0 <= i < self.files@.len() && *f == self.files@[i] && is_skill_md_path(
                    self.files@[i].path@,
                ) && forall|j: int| 0 <= j < i ==> !is_skill_md_path(#[trigger] self.files@[j].path@),
    {
        let target = chars_of("skill.md");
        let mut i: usize = 0;
        while i < self.files.len()
            invariant
                i <= self.files@.len(),
                target@ == "skill.md"@,
                forall|j: int| 0 <= j < i ==> !is_skill_md_path(#[trigger] self.files@[j].path@),
            decreases self.files@.len() - i,
        {
            let lowered = lower_exec(&chars_of(self.files[i].path.as_str()));
            if eq_chars(&lowered, &target) {
                return Some(&self.files[i]);
            }
            i = i + 1;
        }
        None
    }

    /// Total byte size of all files.
    pub fn total_bytes(&self) -> (r: usize)
        requires
            bytes_total(self.files@) <= usize::MAX,
        ensures
            r == bytes_total(self.files@),
    {
        let mut total: usize = 0;
        let mut i: usize = 0;
        while i < self.files.len()
            invariant
                i <= self.files@.len(),
                bytes_total(self.files@) <= usize::MAX,
                total == bytes_total(self.files@.subrange(0, i as int)),
            decreases self.files@.len() - i,
        {
            proof {
                lemma_bytes_total_prefix(self.files@, i + 1);
                assert(self.files@.subrange(0, i + 1).drop_last() =~= self.files@.subrange(
                    0,
                    i as int,
                ));
            }
            let n = str_byte_len(self.files[i].contents.as_str());
            total = total + n;
            i = i + 1;
        }
        proof {
            assert(self.files@.subrange(0, self.files@.len() as int) =~= self.files@);
        }
        total
    }
}

// ---------------------------------------------------------------------------
// Paths and ids
// ---------------------------------------------------------------------------

/// A path segment that is empty, `.` or `..`.
pub open spec fn is_bad_segment(s: Seq<char>) -> bool {
    s.len() == 0 || s == "."@ || s == ".."@
}

/// Whether a registry-supplied path stays inside the skill directory: it is
/// non-empty, has no control character, and once `\` is read as `/` it is not
/// absolute, has no `:` and no empty, `.` or `..` segment.
pub open spec fn safe_relative_path(p: Seq<char>) -> bool {
    let n = replace_char(p, '\\', '/');
    let segments = split_class(n, CharClass::Exactly('/'));
    &&& p.len() > 0
    &&& forall|i: int| 0 <= i < p.len() ==> !is_control(#[trigger] p[i])
    &&& !(n.len() > 0 && n[0] == '/')
    &&& !contains_char(n, ':')
    &&& forall|i: int| 0 <= i < segments.len() ==> !is_bad_segment(#[trigger] segments[i])
}

fn is_bad_segment_exec(s: &[char]) -> (r: bool)
    ensures
        r == is_bad_segment(s@),
{
    let dot = chars_of(".");
    let dotdot = chars_of("..");
    s.len() == 0 || eq_chars(s, &dot) || eq_chars(s, &dotdot)
}

/// Whether a registry-supplied path stays inside the skill directory.
pub fn is_safe_relative_path(path: &str) -> (r: bool)
    ensures
        r == safe_relative_path(path@),
{
    let p = chars_of(path);
    if p.len() == 0 || any_control(&p) {
        return false;
    }
    let n = replace_char_exec(&p, '\\', '/');
    if (n.len() > 0 && n[0] == '/') || contains_char_exec(&n, ':') {
        return false;
    }
    let segments = split_class_exec(&n, &CharClass::Exactly('/'));
    let ghost sv = split_class(n@, CharClass::Exactly('/'));
    let mut i: usize = 0;
    while i < segments.len()
        invariant
            i <= segments@.len(),
            views(segments@) == sv,
            sv == split_class(n@, CharClass::Exactly('/')),
            n@ == replace_char(path@, '\\', '/'),
            path@.len() > 0,
            forall|j: int| 0 <= j < path@.len() ==> !is_control(#[trigger] path@[j]),
            !(n@.len() > 0 && n@[0] == '/'),
            !contains_char(n@, ':'),
            forall|j: int| 0 <= j < i ==> !is_bad_segment(#[trigger] sv[j]),
        decreases segments@.len() - i,
    {
        if is_bad_segment_exec(&segments[i]) {
            proof {
                assert(sv[i as int] == segments@[i as int]@);
            }
            return false;
        }
        proof {
            assert(sv[i as int] == segments@[i as int]@);
        }
        i = i + 1;
    }
    true
}

/// The `/`-separated non-empty pieces of a registry id, after trimming
/// whitespace and then slashes from both ends.
pub open spec fn id_parts(id: Seq<char>) -> Seq<Seq<char>> {
    nonempty_pieces(trim_class(trim(id), CharClass::Exactly('/')), '/')
}

/// The `(owner, repo, slug)` a registry id names: three parts are owner,
/// repository and slug; a well-known source is a single domain segment (one
/// holding a `.`, such as `mintlify.com/mintlify`), whose repository half is
/// empty. Any other number of parts names nothing.
pub open spec fn registry_id_split(id: Seq<char>) -> Option<(Seq<char>, Seq<char>, Seq<char>)> {
    let p = id_parts(id);
    if p.len() == 3 {
        Some((p[0], p[1], p[2]))
    } else if p.len() == 2 && contains_char(p[0], '.') {
        Some((p[0], Seq::empty(), p[1]))
    } else {
        None
    }
}

/// Split a registry id into `(owner, repo, slug)`.
///
/// Well-known sources are a single domain segment (`mintlify.com/mintlify`),
/// so the repo half is empty in that case and the download URL collapses to
/// the two-segment form the registry expects.
pub fn split_registry_id(id: &str) -> (r: Option<(String, String, String)>)
    ensures
        match r {
            Some(t) => registry_id_split(id@) == Some((t.0@, t.1@, t.2@)),
            None => registry_id_split(id@) is None,
        },
{
    let trimmed = trim_class_exec(&trim_ws(&chars_of(id)), &CharClass::Exactly('/'));
    let pieces = split_class_exec(&trimmed, &CharClass::Exactly('/'));
    let parts = drop_empty_exec(&pieces);
    proof {
        if parts@.len() >= 2 {
            assert(views(parts@)[0] == parts@[0]@);
            assert(views(parts@)[1] == parts@[1]@);
        }
        if parts@.len() >= 3 {
            assert(views(parts@)[2] == parts@[2]@);
        }
    }
    if parts.len() == 3 {
        let owner = string_of(&parts[0]);
        let repo = string_of(&parts[1]);
        let slug = string_of(&parts[2]);
        Some((owner, repo, slug))
    } else if parts.len() == 2 && contains_char_exec(&parts[0], '.') {
        let domain = string_of(&parts[0]);
        let slug = string_of(&parts[1]);
        Some((domain, String::new(), slug))
    } else {
        None
    }
}

// ---------------------------------------------------------------------------
// Validation of a downloaded skill
// ---------------------------------------------------------------------------

/// The first per-file problem from index `i` on, with `total` bytes counted
/// before `i`: an unsafe path, a file over the per-file cap, or a running
/// total over the per-skill cap.
pub open spec fn file_problem(name: Seq<char>, files: Seq<RegistryFile>, i: int, total: nat) -> Option<
    RegistryErrorView,
>
    decreases files.len() - i,
{
    if i < 0 || i >= files.len() {
        None
    } else if !safe_relative_path(files[i].path@) {
        Some(RegistryErrorView::UnsafePath { name, path: files[i].path@ })
    } else if byte_len(files[i].contents@) > MAX_FILE_BYTES {
        Some(RegistryErrorView::TooLarge { name, limit: MAX_FILE_BYTES })
    } else if total + byte_len(files[i].contents@) > MAX_SKILL_BYTES {
        Some(RegistryErrorView::TooLarge { name, limit: MAX_SKILL_BYTES })
    } else {
        file_problem(name, files, i + 1, total + byte_len(files[i].contents@))
    }
}

/// What validating the payload of skill `name` gives.
pub open spec fn validation(name: Seq<char>, files: Seq<RegistryFile>) -> Result<(), RegistryErrorView> {
    if files.len() == 0 {
        Err(RegistryErrorView::Malformed("skill `"@ + name + "` contains no files"@))
    } else if files.len() > MAX_SKILL_FILES {
        Err(RegistryErrorView::TooLarge { name, limit: MAX_SKILL_FILES })
    } else if file_problem(name, files, 0, 0) is Some {
        Err(file_problem(name, files, 0, 0)->0)
    } else if !exists|i: int| 0 <= i < files.len() && is_skill_md_path(#[trigger] files[i].path@) {
        Err(RegistryErrorView::Malformed("skill `"@ + name + "` has no SKILL.md"@))
    } else {
        Ok(())
    }
}

/// Every file's contents fit in memory as far as their byte count goes.
pub open spec fn lengths_fit(files: Seq<RegistryFile>) -> bool {
    forall|i: int| 0 <= i < files.len() ==> byte_len(#[trigger] files[i].contents@) <= usize::MAX
}

fn text_error(prefix: &str, name: &str, suffix: &str) -> (r: String)
    ensures
        r@ == prefix@ + name@ + suffix@,
{
    let mut v = chars_of(prefix);
    push_str_chars(&mut v, name);
    push_str_chars(&mut v, suffix);
    string_of(&v)
}

/// Reject payloads that are oversized or contain unsafe paths before any of
/// their contents reach the filesystem.
pub fn validate_skill_files(name: &str, files: &RegistrySkillFiles) -> (r: Result<(), RegistryError>)
    requires
        lengths_fit(files.files@),
    ensures
        match r {
            Ok(()) => validation(name@, files.files@) is Ok,
            Err(e) => validation(name@, files.files@) == Err::<(), RegistryErrorView>(e@),
        },
{
    let n = files.files.len();
    if n == 0 {
        return Err(RegistryError::Malformed(text_error("skill `", name, "` contains no files")));
    }
    if n > MAX_SKILL_FILES {
        return Err(RegistryError::TooLarge { name: name.to_owned(), limit: MAX_SKILL_FILES });
    }
    let ghost fs = files.files@;
    let mut total: usize = 0;
    let mut i: usize = 0;
    while i < n
        invariant
            n == fs.len(),
            0 < n <= MAX_SKILL_FILES,
            fs == files.files@,
            lengths_fit(fs),
            i <= n,
            total <= MAX_SKILL_BYTES,
            file_problem(name@, fs, 0, 0) == file_problem(name@, fs, i as int, total as nat),
        decreases n - i,
    {
        let file = &files.files[i];
        if !is_safe_relative_path(file.path.as_str()) {
            return Err(RegistryError::UnsafePath { name: name.to_owned(), path: file.path.clone() });
        }
        let len = str_byte_len(file.contents.as_str());
        if len > MAX_FILE_BYTES {
            return Err(RegistryError::TooLarge { name: name.to_owned(), limit: MAX_FILE_BYTES });
        }
        total = total + len;
        if total > MAX_SKILL_BYTES {
            return Err(RegistryError::TooLarge { name: name.to_owned(), limit: MAX_SKILL_BYTES });
        }
        i = i + 1;
    }
    if files.skill_md().is_none() {
        return Err(RegistryError::Malformed(text_error("skill `", name, "` has no SKILL.md")));
    }
    Ok(())
}

// ---------------------------------------------------------------------------
// Percent-encoding
// ---------------------------------------------------------------------------

/// Bytes that travel through a URL unescaped: ASCII letters and digits and
/// `-`, `.`, `_`, `~`.
pub open spec fn is_unreserved_byte(b: u8) -> bool {
    ||| (0x30 <= b && b <= 0x39)
    ||| (0x41 <= b && b <= 0x5a)
    ||| (0x61 <= b && b <= 0x7a)
    ||| b == 0x2d
    ||| b == 0x2e
    ||| b == 0x5f
    ||| b == 0x7e
}

/// Uppercase hexadecimal digit for `d < 16`.
pub open spec fn hex_upper(d: int) -> char {
    if d < 10 {
        (48 + d) as char
    } else {
        (55 + d) as char
    }
}

/// Percent-encoding of a byte string: unreserved bytes stay, every other byte
/// becomes `%` and two uppercase hex digits.
pub open spec fn percent_encode(bytes: Seq<u8>) -> Seq<char>
    decreases bytes.len(),
{
    if bytes.len() == 0 {
        Seq::empty()
    } else {
        let b = bytes[0];
        (if is_unreserved_byte(b) {
            seq![b as char]
        } else {
            seq!['%', hex_upper(b as int / 16), hex_upper(b as int % 16)]
        }) + percent_encode(bytes.drop_first())
    }
}

/// `urlencoding::encode`: the UTF-8 bytes of `s`, each ASCII letter, digit,
/// `-`, `.`, `_` or `~` kept as it is and every other byte written as `%`
/// followed by two uppercase hexadecimal digits.
#[verifier::external_body]
fn url_encode(s: &str) -> (r: String)
    ensures
        r@ == percent_encode(encode_utf8(s@)),
{
    urlencoding::encode(s).into_owned()
}

// ---------------------------------------------------------------------------
// Search
// ---------------------------------------------------------------------------

/// The limit actually sent: `limit` clamped to `1..=MAX_SEARCH_LIMIT`.
pub open spec fn clamp_limit(limit: usize) -> usize {
    if limit < 1 {
        1
    } else if limit > MAX_SEARCH_LIMIT {
        MAX_SEARCH_LIMIT
    } else {
        limit
    }
}

/// The search request for `query` against the registry at `base`, or `None`
/// when the trimmed query has fewer than two characters.
pub open spec fn search_request(
    base: Seq<char>,
    query: Seq<char>,
    limit: usize,
    owner: Option<Seq<char>>,
) -> Option<Seq<char>> {
    let q = trim(query);
    if q.len() < 2 {
        None
    } else {
        let head = base + "/api/search?q="@ + percent_encode(encode_utf8(q)) + "&limit="@ + decimal(
            clamp_limit(limit) as nat,
        );
        Some(
            if owner is Some && trim(owner->0).len() > 0 {
                head + "&owner="@ + percent_encode(encode_utf8(trim(owner->0)))
            } else {
                head
            },
        )
    }
}

/// A search hit as the registry's JSON carries it.
#[derive(Debug, Clone, PartialEq, Eq)]
pub struct SearchHit {
    pub id: String,
    pub name: String,
    pub source: String,
    pub skill_id: Option<String>,
    pub installs: Option<u64>,
}

/// The part of an id after its last `/` (all of it when it has none).
pub open spec fn last_segment(id: Seq<char>) -> Seq<char> {
    let k = rfind_char(id, '/');
    if k < 0 {
        id
    } else {
        id.subrange(k + 1, id.len() as int)
    }
}

/// The skill a search hit describes: `None` for a blank id; the slug is the
/// trimmed `skillId` when present and non-blank, else the id's last segment;
/// a blank name falls back to the slug; a missing install count is zero.
pub open spec fn hit_view(hit: SearchHit) -> Option<SkillView> {
    let id = trim(hit.id@);
    if id.len() == 0 {
        None
    } else {
        let sid = opt_str_view(hit.skill_id);
        let slug = if sid is Some && trim(sid->0).len() > 0 {
            trim(sid->0)
        } else {
            last_segment(id)
        };
        let name = if trim(hit.name@).len() == 0 {
            slug
        } else {
            trim(hit.name@)
        };
        Some(
            SkillView {
                id,
                slug,
                name,
                source: trim(hit.source@),
                installs: match hit.installs {
                    Some(n) => n,
                    None => 0,
                },
            },
        )
    }
}

/// The skills the hits describe, in order, blank ids dropped.
pub open spec fn hits_view(hits: Seq<SearchHit>) -> Seq<SkillView>
    decreases hits.len(),
{
    if hits.len() == 0 {
        Seq::empty()
    } else {
        match hit_view(hits.last()) {
            Some(v) => hits_view(hits.drop_last()).push(v),
            None => hits_view(hits.drop_last()),
        }
    }
}

/// `a` ranks before `b`: more installs first, then by id.
pub open spec fn rank_before(a: SkillView, b: SkillView) -> bool {
    a.installs > b.installs || (a.installs == b.installs && lex_lt(a.id, b.id))
}

/// Index at which `x` joins the ranked `s`: before the first element that it
/// ranks before, so that ties keep their order.
pub open spec fn rank_pos(s: Seq<SkillView>, x: SkillView) -> int
    decreases s.len(),
{
    if s.len() == 0 {
        0
    } else if rank_before(x, s[0]) {
        0
    } else {
        1 + rank_pos(s.drop_first(), x)
    }
}

/// Stable sort by rank.
pub open spec fn rank_sort(s: Seq<SkillView>) -> Seq<SkillView>
    decreases s.len(),
{
    if s.len() == 0 {
        s
    } else {
        let r = rank_sort(s.drop_last());
        r.insert(rank_pos(r, s.last()), s.last())
    }
}

pub open spec fn skill_views(s: Seq<RegistrySkill>) -> Seq<SkillView> {
    s.map_values(|x: RegistrySkill| x@)
}

/// No later element ranks before an earlier one.
pub open spec fn is_ranked(s: Seq<SkillView>) -> bool {
    forall|i: int, j: int| 0 <= i < j < s.len() ==> !rank_before(#[trigger] s[j], #[trigger] s[i])
}

proof fn lemma_rank_transitive(a: SkillView, b: SkillView, c: SkillView)
    requires
        rank_before(a, b),
        rank_before(b, c),
    ensures
        rank_before(a, c),
{
    if a.installs == b.installs && b.installs == c.installs {
        lemma_lex_transitive(a.id, b.id, c.id);
    }
}

proof fn lemma_rank_pos(s: Seq<SkillView>, x: SkillView)
    ensures
        0 <= rank_pos(s, x) <= s.len(),
        forall|i: int| 0 <= i < rank_pos(s, x) ==> !rank_before(x, #[trigger] s[i]),
        rank_pos(s, x) < s.len() ==> rank_before(x, s[rank_pos(s, x)]),
    decreases s.len(),
{
    if s.len() > 0 && !rank_before(x, s[0]) {
        let t = s.drop_first();
        lemma_rank_pos(t, x);
        assert forall|i: int| 0 <= i < rank_pos(s, x) implies !rank_before(x, #[trigger] s[i]) by {
            if i > 0 {
                assert(s[i] == t[i - 1]);
            }
        }
    }
}

proof fn lemma_rank_pos_at(s: Seq<SkillView>, x: SkillView, j: int)
    requires
        0 <= j <= s.len(),
        forall|i: int| 0 <= i < j ==> !rank_before(x, #[trigger] s[i]),
        j < s.len() ==> rank_before(x, s[j]),
    ensures
        rank_pos(s, x) == j,
{
    lemma_rank_pos(s, x);
    let p = rank_pos(s, x);
    if p < j {
        assert(!rank_before(x, s[p]));
    } else if p > j {
        assert(!rank_before(x, s[j]));
    }
}

/// Ranked output is in order: install counts never increase, and equal
/// counts come by id.
pub proof fn lemma_rank_sort_ranked(s: Seq<SkillView>)
    ensures
        is_ranked(rank_sort(s)),
        rank_sort(s).len() == s.len(),
    decreases s.len(),
{
    if s.len() > 0 {
        let r = rank_sort(s.drop_last());
        lemma_rank_sort_ranked(s.drop_last());
        let x = s.last();
        let p = rank_pos(r, x);
        lemma_rank_pos(r, x);
        let t = r.insert(p, x);
        assert forall|i: int, j: int| 0 <= i < j < t.len() implies !rank_before(
            #[trigger] t[j],
            #[trigger] t[i],
        ) by {
            if j < p {
                assert(t[i] == r[i] && t[j] == r[j]);
            } else if j == p {
                assert(t[i] == r[i]);
            } else if i < p {
                assert(t[i] == r[i] && t[j] == r[j - 1]);
            } else if i == p {
                assert(t[j] == r[j - 1]);
                assert(rank_before(x, r[p]));
                if j - 1 > p {
                    assert(!rank_before(r[j - 1], r[p]));
                }
                if rank_before(r[j - 1], x) {
                    lemma_rank_transitive(r[j - 1], x, r[p]);
                    lemma_lex_irreflexive(r[p].id);
                }
            } else {
                assert(t[i] == r[i - 1] && t[j] == r[j - 1]);
            }
        }
    }
}

/// Ranking keeps every skill, as many times as it came.
pub proof fn lemma_rank_sort_permutes(s: Seq<SkillView>)
    ensures
        rank_sort(s).to_multiset() == s.to_multiset(),
    decreases s.len(),
{
    broadcast use vstd::seq_lib::group_to_multiset_ensures;

    if s.len() > 0 {
        let r = rank_sort(s.drop_last());
        lemma_rank_sort_permutes(s.drop_last());
        let x = s.last();
        let p = rank_pos(r, x);
        lemma_rank_pos(r, x);
        vstd::seq_lib::lemma_multiset_commutative(
            r.subrange(0, p),
            seq![x] + r.subrange(p, r.len() as int),
        );
        assert(r.insert(p, x) =~= r.subrange(0, p) + (seq![x] + r.subrange(p, r.len() as int)));
        assert(r =~= r.subrange(0, p) + r.subrange(p, r.len() as int));
        vstd::seq_lib::lemma_multiset_commutative(r.subrange(0, p), r.subrange(p, r.len() as int));
        vstd::seq_lib::lemma_multiset_commutative(seq![x], r.subrange(p, r.len() as int));
        assert(s =~= s.drop_last().push(x));
    }
}

/// Search results come ordered by install count, most installed first, and
/// skills with equal counts come in the order of their ids.
pub proof fn law_search_results_ranked(hits: Seq<SearchHit>)
    ensures
        forall|i: int, j: int|
            0 <= i < j < rank_sort(hits_view(hits)).len() ==> {
                let a = #[trigger] rank_sort(hits_view(hits))[i];
                let b = #[trigger] rank_sort(hits_view(hits))[j];
                a.installs >= b.installs && (a.installs == b.installs ==> lex_le(a.id, b.id))
            },
{
    let s = rank_sort(hits_view(hits));
    lemma_rank_sort_ranked(hits_view(hits));
    assert forall|i: int, j: int| 0 <= i < j < s.len() implies {
        let a = #[trigger] s[i];
        let b = #[trigger] s[j];
        a.installs >= b.installs && (a.installs == b.installs ==> lex_le(a.id, b.id))
    } by {
        assert(!rank_before(s[j], s[i]));
        lemma_lex_trichotomy(s[i].id, s[j].id);
    }
}

fn trimmed_string(s: &str) -> (r: Vec<char>)
    ensures
        r@ == trim(s@),
{
    trim_ws(&chars_of(s))
}

/// The skill a search hit describes, or `None` when its id is blank.
pub fn skill_from_hit(hit: &SearchHit) -> (r: Option<RegistrySkill>)
    ensures
        match r {
            Some(s) => hit_view(*hit) == Some(s@),
            None => hit_view(*hit) is None,
        },
{
    let id = trimmed_string(hit.id.as_str());
    if id.len() == 0 {
        return None;
    }
    let mut slug: Vec<char> = Vec::new();
    let mut have_slug = false;
    if let Some(sid) = &hit.skill_id {
        let t = trimmed_string(sid.as_str());
        if t.len() > 0 {
            slug = t;
            have_slug = true;
        }
    }
    if !have_slug {
        slug = match rfind_char_exec(&id, '/') {
            Some(k) => tail(&id, k + 1),
            None => tail(&id, 0),
        };
        proof {
            assert(id@.subrange(0, id@.len() as int) =~= id@);
        }
    }
    let name_t = trimmed_string(hit.name.as_str());
    let name = if name_t.len() == 0 {
        string_of(&slug)
    } else {
        string_of(&name_t)
    };
    let installs: u64 = match hit.installs {
        Some(n) => n,
        None => 0,
    };
    let source = string_of(&trimmed_string(hit.source.as_str()));
    let skill = RegistrySkill {
        id: string_of(&id),
        slug: string_of(&slug),
        name,
        source,
        installs,
    };
    Some(skill)
}

/// Whether `a` ranks before `b`.
fn ranks_before(a: &RegistrySkill, b: &RegistrySkill) -> (r: bool)
    ensures
        r == rank_before(a@, b@),
{
    a.installs > b.installs || (a.installs == b.installs && lex_less_str(
        a.id.as_str(),
        b.id.as_str(),
    ))
}

/// The skills that search hits describe, hits with a blank id dropped, ranked
/// by install count (most first) and then by id; ties keep the registry's order.
pub fn rank_search_hits(hits: &Vec<SearchHit>) -> (r: Vec<RegistrySkill>)
    ensures
        skill_views(r@) == rank_sort(hits_view(hits@)),
{
    let mut r: Vec<RegistrySkill> = Vec::new();
    let mut i: usize = 0;
    while i < hits.len()
        invariant
            i <= hits@.len(),
            skill_views(r@) == rank_sort(hits_view(hits@.subrange(0, i as int))),
        decreases hits@.len() - i,
    {
        proof {
            assert(hits@.subrange(0, i + 1).drop_last() =~= hits@.subrange(0, i as int));
            assert(hits@.subrange(0, i + 1).last() == hits@[i as int]);
        }
        let ghost hv = hits_view(hits@.subrange(0, i as int));
        match skill_from_hit(&hits[i]) {
            Some(skill) => {
                let ghost rv = skill_views(r@);
                proof {
                    assert(hits_view(hits@.subrange(0, i + 1)) == hv.push(skill@));
                    assert(hv.push(skill@).drop_last() =~= hv);
                }
                let mut j: usize = 0;
                while j < r.len() && !ranks_before(&skill, &r[j])
                    invariant
                        j <= r@.len(),
                        rv == skill_views(r@),
                        forall|k: int| 0 <= k < j ==> !rank_before(skill@, #[trigger] rv[k]),
                    decreases r@.len() - j,
                {
                    j = j + 1;
                }
                proof {
                    lemma_rank_pos_at(rv, skill@, j as int);
                }
                let ghost sv = skill@;
                r.insert(j, skill);
                proof {
                    assert(skill_views(r@) =~= rv.insert(j as int, sv));
                }
            },
            None => {},
        }
        i = i + 1;
    }
    proof {
        assert(hits@.subrange(0, hits@.len() as int) =~= hits@);
    }
    r
}

// ---------------------------------------------------------------------------
// The registry's base URL
// ---------------------------------------------------------------------------

/// The registry origin when the override variable holds `configured`: the
/// value trimmed of whitespace and then of trailing slashes, or the default
/// when that leaves nothing.
pub open spec fn base_url_spec(configured: Option<Seq<char>>) -> Seq<char> {
    if configured is Some && trim_end_class(trim(configured->0), CharClass::Exactly('/')).len() > 0 {
        trim_end_class(trim(configured->0), CharClass::Exactly('/'))
    } else {
        DEFAULT_REGISTRY_URL@
    }
}

/// Resolve the registry origin from the value of the override variable,
/// `None` when it is unset.
pub fn registry_base_url_from(configured: Option<&str>) -> (r: String)
    ensures
        r@ == base_url_spec(opt_ref_view(configured)),
{
    if let Some(v) = configured {
        let t = trim_end_class_exec(&trim_ws(&chars_of(v)), &CharClass::Exactly('/'));
        if t.len() > 0 {
            return string_of(&t);
        }
    }
    DEFAULT_REGISTRY_URL.to_owned()
}

/// What `Duration::from_secs` returns for `secs`: the duration of exactly
/// that many whole seconds.
pub uninterp spec fn secs_duration(secs: u64) -> Duration;

/// `Duration::from_secs`, which never panics; its result is named
/// `secs_duration`.
#[verifier::external_body]
fn duration_from_secs(secs: u64) -> (r: Duration)
    ensures
        r == secs_duration(secs),
{
    Duration::from_secs(secs)
}

/// Seconds a registry request may take before it is abandoned.
pub const REQUEST_TIMEOUT_SECS: u64 = 20;

/// Where registry requests go and how long each may take.
#[derive(Debug)]
pub struct RegistryClient {
    base_url: String,
    timeout: Duration,
}

impl RegistryClient {
    /// The registry origin requests go to.
    pub closed spec fn base_url_view(&self) -> Seq<char> {
        self.base_url@
    }

    /// How long each request may take.
    pub closed spec fn timeout_view(&self) -> Duration {
        self.timeout
    }

    /// Client pointed at the registry that the override variable names
    /// (`configured`, `None` when unset), with the default timeout of
    /// `REQUEST_TIMEOUT_SECS` seconds.
    pub fn new(configured: Option<&str>) -> (r: RegistryClient)
        ensures
            r.base_url_view() == base_url_spec(opt_ref_view(configured)),
            r.timeout_view() == secs_duration(REQUEST_TIMEOUT_SECS),
    {
        RegistryClient {
            base_url: registry_base_url_from(configured),
            timeout: duration_from_secs(REQUEST_TIMEOUT_SECS),
        }
    }

    /// Client pointed at an explicit base URL, trailing slashes removed,
    /// with the default timeout of `REQUEST_TIMEOUT_SECS` seconds.
    pub fn with_base_url(base_url: &str) -> (r: RegistryClient)
        ensures
            r.base_url_view() == trim_end_class(base_url@, CharClass::Exactly('/')),
            r.timeout_view() == secs_duration(REQUEST_TIMEOUT_SECS),
    {
        let t = trim_end_class_exec(&chars_of(base_url), &CharClass::Exactly('/'));
        RegistryClient { base_url: string_of(&t), timeout: duration_from_secs(REQUEST_TIMEOUT_SECS) }
    }

    /// Override the per-request timeout.
    pub fn with_timeout(self, timeout: Duration) -> (r: RegistryClient)
        ensures
            r.base_url_view() == self.base_url_view(),
            r.timeout_view() == timeout,
    {
        RegistryClient { base_url: self.base_url, timeout }
    }

    /// The base URL this client talks to.
    pub fn base_url(&self) -> (r: &str)
        ensures
            r@ == self.base_url_view(),
    {
        self.base_url.as_str()
    }

    /// The per-request timeout, for the HTTP client.
    pub fn timeout(&self) -> (r: Duration)
        ensures
            r == self.timeout_view(),
    {
        self.timeout
    }

    /// The URL of a search for `query`, or `QueryTooShort` when the trimmed
    /// query has fewer than two characters; `limit` is clamped to
    /// `1..=MAX_SEARCH_LIMIT` and a blank `owner` is left out.
    pub fn search_url(&self, query: &str, limit: usize, owner: Option<&str>) -> (r: Result<
        String,
        RegistryError,
    >)
        ensures
            match r {
                Ok(url) => search_request(self.base_url_view(), query@, limit, opt_ref_view(owner))
                    == Some(url@),
                Err(e) => search_request(self.base_url_view(), query@, limit, opt_ref_view(owner))
                    is None && e@ == RegistryErrorView::QueryTooShort,
            },
    {
        let q = trimmed_string(query);
        if q.len() < 2 {
            return Err(RegistryError::QueryTooShort);
        }
        let clamped: usize = if limit < 1 {
            1
        } else if limit > MAX_SEARCH_LIMIT {
            MAX_SEARCH_LIMIT
        } else {
            limit
        };
        let mut v = chars_of(self.base_url.as_str());
        push_str_chars(&mut v, "/api/search?q=");
        let qs = string_of(&q);
        let eq = url_encode(qs.as_str());
        push_str_chars(&mut v, eq.as_str());
        push_str_chars(&mut v, "&limit=");
        let d = decimal_chars(clamped as u64);
        append_chars(&mut v, &d);
        if let Some(o) = owner {
            let ot = trimmed_string(o);
            if ot.len() > 0 {
                push_str_chars(&mut v, "&owner=");
                let os = string_of(&ot);
                let eo = url_encode(os.as_str());
                push_str_chars(&mut v, eo.as_str());
            }
        }
        Ok(string_of(&v))
    }

    /// The URL that serves the file tree of `owner/repo/slug`; for a
    /// well-known source, whose repository half is empty, `owner/slug`.
    pub fn download_url(&self, owner: &str, repo: &str, slug: &str) -> (r: String)
        ensures
            r@ == self.base_url_view() + "/api/download/"@ + id_path(
                percent_encode(encode_utf8(owner@)),
                percent_encode(encode_utf8(repo@)),
                percent_encode(encode_utf8(slug@)),
            ),
    {
        let mut v = chars_of(self.base_url.as_str());
        push_str_chars(&mut v, "/api/download/");
        let e1 = url_encode(owner);
        push_str_chars(&mut v, e1.as_str());
        v.push('/');
        let e2 = chars_of(url_encode(repo).as_str());
        if e2.len() > 0 {
            append_chars(&mut v, &e2);
            v.push('/');
        }
        let e3 = url_encode(slug);
        push_str_chars(&mut v, e3.as_str());
        string_of(&v)
    }
}

// ---------------------------------------------------------------------------
// Downloads
// ---------------------------------------------------------------------------

/// `owner/repo/slug`, or `owner/slug` when the repository half is empty.
pub open spec fn id_path(owner: Seq<char>, repo: Seq<char>, slug: Seq<char>) -> Seq<char> {
    if repo.len() == 0 {
        owner + seq!['/'] + slug
    } else {
        owner + seq!['/'] + repo + seq!['/'] + slug
    }
}

/// The name a download is reported under: `owner/repo/slug`, or
/// `owner/slug` for a well-known source.
pub fn download_name(owner: &str, repo: &str, slug: &str) -> (r: String)
    ensures
        r@ == id_path(owner@, repo@, slug@),
{
    let mut v = chars_of(owner);
    v.push('/');
    let r = chars_of(repo);
    if r.len() > 0 {
        append_chars(&mut v, &r);
        v.push('/');
    }
    push_str_chars(&mut v, slug);
    string_of(&v)
}

/// What a download of skill `name` gives once the transfer produced
/// `fetched`: an HTTP 404 means the skill does not exist, other transfer
/// errors pass through, and a payload must pass `validation`.
pub open spec fn download_outcome(name: Seq<char>, fetched: Result<Seq<RegistryFile>, RegistryErrorView>) -> Result<
    Seq<RegistryFile>,
    RegistryErrorView,
> {
    match fetched {
        Err(RegistryErrorView::Status { status, url }) => if status == 404 {
            Err(RegistryErrorView::NotFound(name))
        } else {
            Err(RegistryErrorView::Status { status, url })
        },
        Err(e) => Err(e),
        Ok(files) => match validation(name, files) {
            Ok(()) => Ok(files),
            Err(e) => Err(e),
        },
    }
}

/// Judge the result of fetching skill `name`.
pub fn finish_download(name: &str, fetched: Result<RegistrySkillFiles, RegistryError>) -> (r: Result<
    RegistrySkillFiles,
    RegistryError,
>)
    requires
        fetched matches Ok(f) ==> lengths_fit(f.files@),
    ensures
        match fetched {
            Ok(f) => match r {
                Ok(g) => g == f && download_outcome(name@, Ok(f.files@)) == Ok::<
                    Seq<RegistryFile>,
                    RegistryErrorView,
                >(f.files@),
                Err(e) => download_outcome(name@, Ok(f.files@)) == Err::<
                    Seq<RegistryFile>,
                    RegistryErrorView,
                >(e@),
            },
            Err(fe) => r matches Err(e) && download_outcome(name@, Err(fe@)) == Err::<
                Seq<RegistryFile>,
                RegistryErrorView,
            >(e@),
        },
{
    match fetched {
        Err(RegistryError::Status { status, url }) => {
            if status == 404 {
                Err(RegistryError::NotFound(name.to_owned()))
            } else {
                Err(RegistryError::Status { status, url })
            }
        },
        Err(e) => Err(e),
        Ok(files) => {
            match validate_skill_files(name, &files) {
                Ok(()) => Ok(files),
                Err(e) => Err(e),
            }
        },
    }
}

/// The `(owner, repo, slug)` a registry id names (see `split_registry_id`),
/// or `NotFound` with the trimmed id when it names nothing.
pub fn download_target(id: &str) -> (r: Result<(String, String, String), RegistryError>)
    ensures
        match r {
            Ok(t) => registry_id_split(id@) == Some((t.0@, t.1@, t.2@)),
            Err(e) => registry_id_split(id@) is None && e@ == RegistryErrorView::NotFound(trim(id@)),
        },
{
    match split_registry_id(id) {
        Some(t) => Ok(t),
        None => Err(RegistryError::NotFound(string_of(&trimmed_string(id)))),
    }
}

// ---------------------------------------------------------------------------
// What validation guarantees
// ---------------------------------------------------------------------------

proof fn lemma_no_file_problem(name: Seq<char>, files: Seq<RegistryFile>, i: int)
    requires
        0 <= i <= files.len(),
        file_problem(name, files, i, bytes_total(files.subrange(0, i))) is None,
    ensures
        forall|j: int|
            i <= j < files.len() ==> safe_relative_path(#[trigger] files[j].path@) && byte_len(
                files[j].contents@,
            ) <= MAX_FILE_BYTES && bytes_total(files.subrange(0, j + 1)) <= MAX_SKILL_BYTES,
    decreases files.len() - i,
{
    if i < files.len() {
        let t = bytes_total(files.subrange(0, i));
        assert(files.subrange(0, i + 1).drop_last() =~= files.subrange(0, i));
        assert(files.subrange(0, i + 1).last() == files[i]);
        assert(bytes_total(files.subrange(0, i + 1)) == t + byte_len(files[i].contents@));
        lemma_no_file_problem(name, files, i + 1);
    }
}

/// A payload that passes validation is safe to write: it has between one
/// and `MAX_SKILL_FILES` files, every path stays inside the skill directory,
/// no file exceeds `MAX_FILE_BYTES`, all of them together do not exceed
/// `MAX_SKILL_BYTES`, and one of them is the `SKILL.md`.
pub proof fn law_validated_payload_is_safe(name: Seq<char>, files: Seq<RegistryFile>)
    requires
        validation(name, files) is Ok,
    ensures
        0 < files.len() <= MAX_SKILL_FILES,
        forall|i: int|
            0 <= i < files.len() ==> safe_relative_path(#[trigger] files[i].path@) && byte_len(
                files[i].contents@,
            ) <= MAX_FILE_BYTES,
        bytes_total(files) <= MAX_SKILL_BYTES,
        exists|i: int| 0 <= i < files.len() && is_skill_md_path(#[trigger] files[i].path@),
{
    assert(files.subrange(0, 0) =~= Seq::<RegistryFile>::empty());
    lemma_no_file_problem(name, files, 0);
    let n = files.len() as int;
    assert(files.subrange(0, n) =~= files);
    assert(safe_relative_path(files[n - 1].path@));
    assert(bytes_total(files.subrange(0, n - 1 + 1)) <= MAX_SKILL_BYTES);
}

proof fn lemma_within_limits_no_problem(name: Seq<char>, files: Seq<RegistryFile>, i: int)
    requires
        0 <= i <= files.len(),
        forall|j: int|
            0 <= j < files.len() ==> safe_relative_path(#[trigger] files[j].path@) && byte_len(
                files[j].contents@,
            ) <= MAX_FILE_BYTES,
        bytes_total(files) <= MAX_SKILL_BYTES,
    ensures
        file_problem(name, files, i, bytes_total(files.subrange(0, i))) is None,
    decreases files.len() - i,
{
    if i < files.len() {
        let t = bytes_total(files.subrange(0, i));
        assert(files.subrange(0, i + 1).drop_last() =~= files.subrange(0, i));
        assert(files.subrange(0, i + 1).last() == files[i]);
        assert(bytes_total(files.subrange(0, i + 1)) == t + byte_len(files[i].contents@));
        lemma_bytes_total_prefix(files, i + 1);
        assert(safe_relative_path(files[i].path@));
        lemma_within_limits_no_problem(name, files, i + 1);
    }
}

/// A payload passes validation whenever it is safe to write: between one and
/// `MAX_SKILL_FILES` files, every path inside the skill directory, no file
/// over `MAX_FILE_BYTES`, all of them together within `MAX_SKILL_BYTES`, and a
/// `SKILL.md` among them, wherever it stands in the list.
pub proof fn law_payload_within_limits_validates(name: Seq<char>, files: Seq<RegistryFile>)
    requires
        0 < files.len() <= MAX_SKILL_FILES,
        forall|i: int|
            0 <= i < files.len() ==> safe_relative_path(#[trigger] files[i].path@) && byte_len(
                files[i].contents@,
            ) <= MAX_FILE_BYTES,
        bytes_total(files) <= MAX_SKILL_BYTES,
        exists|i: int| 0 <= i < files.len() && is_skill_md_path(#[trigger] files[i].path@),
    ensures
        validation(name, files) is Ok,
{
    assert(files.subrange(0, 0) =~= Seq::<RegistryFile>::empty());
    lemma_within_limits_no_problem(name, files, 0);
}

proof fn lemma_split_nonempty(s: Seq<char>, cls: CharClass)
    ensures
        split_class(s, cls).len() >= 1,
    decreases s.len(),
{
    crate::text::lemma_split_class_unfold(s, cls);
    let i = crate::text::find_class(s, cls);
    if i >= 0 {
        crate::text::lemma_find_class(s, cls);
        lemma_split_nonempty(s.subrange(i + 1, s.len() as int), cls);
    }
}

proof fn lemma_split_pieces_lack(s: Seq<char>, c: char)
    requires
        !contains_char(s, c),
    ensures
        forall|k: int|
            0 <= k < split_class(s, CharClass::Exactly('/')).len() ==> !contains_char(
                #[trigger] split_class(s, CharClass::Exactly('/'))[k],
                c,
            ),
    decreases s.len(),
{
    let cls = CharClass::Exactly('/');
    crate::text::lemma_split_class_unfold(s, cls);
    let i = crate::text::find_class(s, cls);
    if i >= 0 {
        crate::text::lemma_find_class(s, cls);
        let rest = s.subrange(i + 1, s.len() as int);
        assert(!contains_char(rest, c)) by {
            if contains_char(rest, c) {
                let j = choose|j: int| 0 <= j < rest.len() && rest[j] == c;
                assert(s[i + 1 + j] == c);
            }
        }
        lemma_split_pieces_lack(rest, c);
        let head = s.subrange(0, i);
        assert(!contains_char(head, c)) by {
            if contains_char(head, c) {
                let j = choose|j: int| 0 <= j < head.len() && head[j] == c;
                assert(s[j] == c);
            }
        }
        let parts = split_class(s, cls);
        assert forall|k: int| 0 <= k < parts.len() implies !contains_char(#[trigger] parts[k], c) by {
            if k > 0 {
                assert(parts[k] == split_class(rest, cls)[k - 1]);
            }
        }
    }
}

proof fn lemma_keep_all_parts(segs: Seq<Seq<char>>)
    requires
        forall|i: int| 0 <= i < segs.len() ==> !is_bad_segment(#[trigger] segs[i]),
    ensures
        crate::skill_source::keep_parts(segs) == segs,
    decreases segs.len(),
{
    if segs.len() > 0 {
        assert(!is_bad_segment(segs[segs.len() - 1]));
        lemma_keep_all_parts(segs.drop_last());
        assert(segs.drop_last().push(segs.last()) =~= segs);
    }
}

/// A path that passes the registry's check is written inside the directory
/// it is joined under, one path component per `/`-separated segment.
pub proof fn law_safe_paths_stay_inside(root: Seq<char>, path: Seq<char>)
    requires
        safe_relative_path(path),
    ensures
        join_within_spec(root, path) == Some(
            push_parts(root, split_class(replace_char(path, '\\', '/'), CharClass::Exactly('/'))),
        ),
{
    let n = replace_char(path, '\\', '/');
    let comps = split_class(n, CharClass::Exactly('/'));
    lemma_split_nonempty(n, CharClass::Exactly('/'));
    lemma_keep_all_parts(comps);
    lemma_split_pieces_lack(n, ':');
    assert(!exists|i: int| 0 <= i < comps.len() && comps[i] == ".."@) by {
        if exists|i: int| 0 <= i < comps.len() && comps[i] == ".."@ {
            let i = choose|i: int| 0 <= i < comps.len() && comps[i] == ".."@;
            assert(!is_bad_segment(comps[i]));
        }
    }
}

} // verus!
