//! Parse a user-supplied skill source string into a resolvable specification.
//!
//! Accepted shapes:
//!
//! - `owner/repo` GitHub shorthand, optionally `owner/repo/subdir`
//! - `owner/repo@skill-name` to install a single skill out of a repo
//! - `https://github.com/owner/repo`, `.../tree/<ref>`, `.../tree/<ref>/<subdir>`
//! - `github:owner/repo`, `gitlab:group/project`, `git@github.com:owner/repo.git`
//! - `https://gitlab.com/group/project/-/tree/<ref>/<subdir>`
//! - `#<ref>` / `#<ref>@<skill>` fragments on any git form
//! - local filesystem paths (`.`, `./skills`, `/abs/path`, `~/skills`)
//! - registry ids (`owner/repo/skill-slug` that the registry resolves directly)
//!
//! Parsing is pure: no network access and no filesystem writes. The only
//! outside fact it reads is the user's home directory, for `~` paths.

use vstd::prelude::*;
use crate::paths::{is_absolute, is_absolute_exec, path_join, path_join_exec};
use crate::text::{
    any_control, append_chars, chars_of, concat, contains_char, contains_char_exec, count_char,
    count_char_exec, drop_empty_exec, ends_with, ends_with_exec, eq_chars, find_char,
    find_char_exec, find_pattern, find_pattern_exec, is_ascii_alnum, is_control, join_exec,
    join_with, lemma_find_class, lower_exec, lower_seq, nonempty_pieces, rfind_char,
    rfind_char_exec, slice_chars, split_class, split_class_exec, starts_with, starts_with_exec,
    string_of, strip_prefix_or_self, strip_prefix_or_self_exec, strip_suffix_or_self,
    strip_suffix_or_self_exec, tail, trim, trim_class, trim_class_exec, trim_end_pattern,
    trim_end_class, trim_end_class_exec, trim_end_pattern_exec, trim_ws, views, CharClass,
};

verus! {

/// Git hosting family for a parsed source.
#[derive(Debug, Clone, Copy, PartialEq, Eq, Structural)]
pub enum GitHost {
    GitHub,
    GitLab,
    Other,
}

impl GitHost {
    pub open spec fn label(self) -> Seq<char> {
        match self {
            GitHost::GitHub => "github"@,
            GitHost::GitLab => "gitlab"@,
            GitHost::Other => "git"@,
        }
    }

    /// Short lowercase label for display and JSON output.
    pub fn as_str(self) -> (r: &'static str)
        ensures
            r@ == self.label(),
    {
        match self {
            GitHost::GitHub => "github",
            GitHost::GitLab => "gitlab",
            GitHost::Other => "git",
        }
    }
}

/// Where a skill install should read its files from.
#[derive(Debug, Clone, PartialEq, Eq)]
pub enum SkillSource {
    /// A directory on this machine that contains one or more `SKILL.md` files.
    Local { path: String },
    /// A git repository that must be cloned before scanning.
    Git {
        /// Clone URL, always normalized to an explicit `.git` form.
        url: String,
        /// Branch, tag, or commit to check out. `None` uses the default branch.
        git_ref: Option<String>,
        /// Directory inside the repository to scan instead of the root.
        subpath: Option<String>,
        /// Install only the named skill from the repository.
        skill_filter: Option<String>,
        /// Host family, used for display and for registry id derivation.
        host: GitHost,
    },
    /// A skill hosted by the skills.sh registry, addressed as `owner/repo/slug`.
    Registry {
        /// `owner/repo` (GitHub sources) or `domain.com` (well-known sources).
        source: String,
        /// The skill slug within that source.
        slug: String,
    },
}

/// The mathematical value of a [`SkillSource`].
pub enum SourceSpec {
    Local { path: Seq<char> },
    Git {
        url: Seq<char>,
        git_ref: Option<Seq<char>>,
        subpath: Option<Seq<char>>,
        skill_filter: Option<Seq<char>>,
        host: GitHost,
    },
    Registry { source: Seq<char>, slug: Seq<char> },
}

/// The characters of an optional string.
pub open spec fn opt_str_view(o: Option<String>) -> Option<Seq<char>> {
    match o {
        Some(s) => Some(s@),
        None => None,
    }
}

pub open spec fn opt_chars_view(o: Option<Vec<char>>) -> Option<Seq<char>> {
    match o {
        Some(s) => Some(s@),
        None => None,
    }
}

impl View for SkillSource {
    type V = SourceSpec;

    open spec fn view(&self) -> SourceSpec {
        match self {
            SkillSource::Local { path } => SourceSpec::Local { path: path@ },
            SkillSource::Git { url, git_ref, subpath, skill_filter, host } => SourceSpec::Git {
                url: url@,
                git_ref: opt_str_view(*git_ref),
                subpath: opt_str_view(*subpath),
                skill_filter: opt_str_view(*skill_filter),
                host: *host,
            },
            SkillSource::Registry { source, slug } => SourceSpec::Registry {
                source: source@,
                slug: slug@,
            },
        }
    }
}

/// Errors produced while parsing a source string.
#[derive(Debug, Clone, PartialEq, Eq)]
pub enum SkillSourceError {
    Empty,
    Unrecognized(String),
    UnsafeSubpath(String),
    ControlCharacter(String),
}

pub enum SourceErrorSpec {
    Empty,
    Unrecognized(Seq<char>),
    UnsafeSubpath(Seq<char>),
    ControlCharacter(Seq<char>),
}

impl View for SkillSourceError {
    type V = SourceErrorSpec;

    open spec fn view(&self) -> SourceErrorSpec {
        match self {
            SkillSourceError::Empty => SourceErrorSpec::Empty,
            SkillSourceError::Unrecognized(s) => SourceErrorSpec::Unrecognized(s@),
            SkillSourceError::UnsafeSubpath(s) => SourceErrorSpec::UnsafeSubpath(s@),
            SkillSourceError::ControlCharacter(s) => SourceErrorSpec::ControlCharacter(s@),
        }
    }
}

impl SourceErrorSpec {
    /// The sentence shown to the user for this error.
    pub open spec fn message(self) -> Seq<char> {
        match self {
            SourceErrorSpec::Empty => "skill source is empty"@,
            SourceErrorSpec::Unrecognized(s) => "skill source `"@ + s
                + "` is not a recognized repository, URL, or path"@,
            SourceErrorSpec::UnsafeSubpath(s) => "skill source `"@ + s
                + "` contains a path component that escapes the repository"@,
            SourceErrorSpec::ControlCharacter(s) => "skill source `"@ + s
                + "` contains a control character"@,
        }
    }
}

impl SkillSourceError {
    /// The sentence shown to the user for this error.
    pub fn message(&self) -> (r: String)
        ensures
            r@ == self@.message(),
    {
        let mut v: Vec<char> = Vec::new();
        match self {
            SkillSourceError::Empty => {
                crate::text::push_str_chars(&mut v, "skill source is empty");
            },
            SkillSourceError::Unrecognized(s) => {
                crate::text::push_str_chars(&mut v, "skill source `");
                crate::text::push_str_chars(&mut v, s.as_str());
                crate::text::push_str_chars(&mut v, "` is not a recognized repository, URL, or path");
            },
            SkillSourceError::UnsafeSubpath(s) => {
                crate::text::push_str_chars(&mut v, "skill source `");
                crate::text::push_str_chars(&mut v, s.as_str());
                crate::text::push_str_chars(
                    &mut v,
                    "` contains a path component that escapes the repository",
                );
            },
            SkillSourceError::ControlCharacter(s) => {
                crate::text::push_str_chars(&mut v, "skill source `");
                crate::text::push_str_chars(&mut v, s.as_str());
                crate::text::push_str_chars(&mut v, "` contains a control character");
            },
        }
        string_of(&v)
    }
}

pub type ParseOutcome = Result<SourceSpec, SourceErrorSpec>;

pub open spec fn outcome_view(r: Result<SkillSource, SkillSourceError>) -> ParseOutcome {
    match r {
        Ok(s) => Ok(s@),
        Err(e) => Err(e@),
    }
}

// ---------------------------------------------------------------------------
// The parsing rules
// ---------------------------------------------------------------------------

/// A trailing `#ref` or `#ref@skill` fragment split off a source string.
pub open spec fn split_fragment(input: Seq<char>) -> (Seq<char>, Option<Seq<char>>, Option<Seq<char>>) {
    let h = find_char(input, '#');
    if h < 0 {
        (input, None, None)
    } else {
        let body = input.subrange(0, h);
        let frag = input.subrange(h + 1, input.len() as int);
        if body.len() == 0 || frag.len() == 0 {
            (input, None, None)
        } else {
            let a = find_char(frag, '@');
            if a < 0 {
                (body, Some(frag), None)
            } else {
                let r = frag.subrange(0, a);
                let s = frag.subrange(a + 1, frag.len() as int);
                (
                    body,
                    if r.len() > 0 { Some(r) } else { None },
                    if s.len() > 0 { Some(s) } else { None },
                )
            }
        }
    }
}

/// Reattaches a fragment when re-reading through a `github:`/`gitlab:` prefix.
pub open spec fn rejoin(body: Seq<char>, git_ref: Option<Seq<char>>, skill: Option<Seq<char>>) -> Seq<char> {
    match (git_ref, skill) {
        (Some(r), Some(s)) => body.push('#') + r.push('@') + s,
        (Some(r), None) => body.push('#') + r,
        (None, Some(s)) => body.push('#').push('@') + s,
        (None, None) => body,
    }
}

/// Local filesystem sources: `.`, `..`, `~`, `~/..`, `./..`, `../..`,
/// absolute paths, and `.\..` / `..\..`.
pub open spec fn local_path(raw: Seq<char>, cwd: Seq<char>, home: Option<Seq<char>>) -> Option<Seq<char>> {
    if raw == "."@ || raw == ".."@ {
        Some(path_join(cwd, raw))
    } else if starts_with(raw, "~/"@) {
        match home {
            Some(h) => Some(path_join(h, raw.subrange(2, raw.len() as int))),
            None => None,
        }
    } else if raw == "~"@ {
        home
    } else if starts_with(raw, "./"@) || starts_with(raw, "../"@) {
        Some(path_join(cwd, raw))
    } else if is_absolute(raw) {
        Some(raw)
    } else if starts_with(raw, ".\\"@) || starts_with(raw, "..\\"@) {
        Some(path_join(cwd, raw))
    } else {
        None
    }
}

/// The hosting family of a hostname.
pub open spec fn host_family(host: Seq<char>) -> GitHost {
    let h = strip_prefix_or_self(lower_seq(host), "www."@);
    if h == "github.com"@ || ends_with(h, ".github.com"@) {
        GitHost::GitHub
    } else if h == "gitlab.com"@ || ends_with(h, ".gitlab.com"@) {
        GitHost::GitLab
    } else {
        GitHost::Other
    }
}

/// The subpath segments that are kept: empty and `.` segments are dropped.
pub open spec fn keep_parts(segs: Seq<Seq<char>>) -> Seq<Seq<char>>
    decreases segs.len(),
{
    if segs.len() == 0 {
        segs
    } else if segs.last().len() == 0 || segs.last() == "."@ {
        keep_parts(segs.drop_last())
    } else {
        keep_parts(segs.drop_last()).push(segs.last())
    }
}

/// Each kept part is one of the segments, and is neither empty nor `.`.
pub proof fn lemma_keep_parts_from(segs: Seq<Seq<char>>)
    ensures
        forall|k: int|
            0 <= k < keep_parts(segs).len() ==> (#[trigger] keep_parts(segs)[k]).len() > 0
                && keep_parts(segs)[k] != "."@ && exists|j: int|
                0 <= j < segs.len() && segs[j] == keep_parts(segs)[k],
    decreases segs.len(),
{
    if segs.len() > 0 {
        let t = segs.drop_last();
        lemma_keep_parts_from(t);
        let kp = keep_parts(segs);
        assert forall|k: int| 0 <= k < kp.len() implies (#[trigger] kp[k]).len() > 0 && kp[k] != "."@
            && exists|j: int| 0 <= j < segs.len() && segs[j] == kp[k] by {
            if k < keep_parts(t).len() {
                assert(kp[k] == keep_parts(t)[k]);
                let j = choose|j: int| 0 <= j < t.len() && t[j] == keep_parts(t)[k];
                assert(segs[j] == t[j]);
            } else {
                assert(kp[k] == segs.last());
                assert(segs[segs.len() - 1] == segs.last());
            }
        }
    }
}

pub open spec fn has_dotdot(segs: Seq<Seq<char>>) -> bool {
    exists|i: int| 0 <= i < segs.len() && segs[i] == ".."@
}

/// A subpath with surrounding slashes, empty and `.` segments removed;
/// a `..` segment is refused.
pub open spec fn sanitize_subpath(raw: Seq<char>) -> Result<Option<Seq<char>>, SourceErrorSpec> {
    let t = trim_class(raw, CharClass::Exactly('/'));
    if t.len() == 0 {
        Ok(None)
    } else {
        let segs = split_class(t, CharClass::Either('/', '\\'));
        if has_dotdot(segs) {
            Err(SourceErrorSpec::UnsafeSubpath(raw))
        } else if keep_parts(segs).len() == 0 {
            Ok(None)
        } else {
            Ok(Some(join_with(keep_parts(segs), '/')))
        }
    }
}

/// The subpath made of `segs[from..]`, when there is at least one such segment.
pub open spec fn subpath_from(segs: Seq<Seq<char>>, from: int) -> Result<Option<Seq<char>>, SourceErrorSpec> {
    if segs.len() > from {
        sanitize_subpath(join_with(segs.subrange(from, segs.len() as int), '/'))
    } else {
        Ok(None)
    }
}

/// Index of the first element equal to `x`, or -1.
pub open spec fn find_elem(s: Seq<Seq<char>>, x: Seq<char>) -> int
    decreases s.len(),
{
    if s.len() == 0 {
        -1
    } else if s[0] == x {
        0
    } else {
        let r = find_elem(s.drop_first(), x);
        if r < 0 {
            -1
        } else {
            r + 1
        }
    }
}

pub open spec fn git_spec(
    url: Seq<char>,
    git_ref: Option<Seq<char>>,
    subpath: Result<Option<Seq<char>>, SourceErrorSpec>,
    skill_filter: Option<Seq<char>>,
    host: GitHost,
) -> ParseOutcome {
    match subpath {
        Ok(sub) => Ok(SourceSpec::Git { url, git_ref, subpath: sub, skill_filter, host }),
        Err(e) => Err(e),
    }
}

pub open spec fn or_else(a: Option<Seq<char>>, b: Option<Seq<char>>) -> Option<Seq<char>> {
    match a {
        Some(x) => Some(x),
        None => b,
    }
}

/// GitLab browse URLs: `group/.../project/-/tree/<ref>/<subdir>`, where the
/// first `-` segment is followed by `tree` and preceded by at least two segments.
pub open spec fn gitlab_tree_marker(segs: Seq<Seq<char>>) -> int {
    let m = find_elem(segs, "-"@);
    if m >= 2 && m + 1 < segs.len() && segs[m + 1] == "tree"@ {
        m
    } else {
        -1
    }
}

/// `scheme://host/path` sources.
pub open spec fn parse_url(body: Seq<char>, frag_ref: Option<Seq<char>>, frag_skill: Option<Seq<char>>) -> ParseOutcome {
    let p = find_pattern(body, "://"@);
    if p < 0 {
        Err(SourceErrorSpec::Unrecognized(body))
    } else {
        let scheme = body.subrange(0, p);
        let rest = strip_prefix_or_self(body.subrange(p + 3, body.len() as int), "git@"@);
        let sl = find_char(rest, '/');
        if sl < 0 {
            Err(SourceErrorSpec::Unrecognized(body))
        } else {
            let host = rest.subrange(0, sl);
            let path = rest.subrange(sl + 1, rest.len() as int);
            let host_lower = strip_prefix_or_self(lower_seq(host), "www."@);
            let family = host_family(host);
            let scheme_out = if scheme == "ssh"@ { "ssh"@ } else { "https"@ };
            let prefix = scheme_out + "://"@ + host_lower + "/"@;
            let segs = nonempty_pieces(path, '/');
            if segs.len() < 2 {
                Err(SourceErrorSpec::Unrecognized(body))
            } else if family == GitHost::GitLab && gitlab_tree_marker(segs) >= 0 {
                let m = gitlab_tree_marker(segs);
                let repo_path = join_with(segs.subrange(0, m), '/');
                let git_ref = if m + 2 < segs.len() { Some(segs[m + 2]) } else { None };
                git_spec(
                    prefix + repo_path + ".git"@,
                    or_else(git_ref, frag_ref),
                    subpath_from(segs, m + 3),
                    frag_skill,
                    family,
                )
            } else {
                let base = prefix + segs[0] + "/"@ + trim_end_pattern(segs[1], ".git"@) + ".git"@;
                if segs.len() >= 4 && segs[2] == "tree"@ {
                    git_spec(base, Some(segs[3]), subpath_from(segs, 4), frag_skill, family)
                } else {
                    git_spec(base, frag_ref, subpath_from(segs, 2), frag_skill, family)
                }
            }
        }
    }
}

pub open spec fn is_segment_char(c: char) -> bool {
    is_ascii_alnum(c) || c == '-' || c == '_' || c == '.'
}

/// A shorthand path segment that is safe to put into a clone URL.
pub open spec fn is_segment(s: Seq<char>) -> bool {
    &&& s.len() > 0
    &&& s != "."@
    &&& s != ".."@
    &&& forall|i: int| 0 <= i < s.len() ==> is_segment_char(#[trigger] s[i])
}

pub open spec fn github_url(owner: Seq<char>, repo: Seq<char>) -> Seq<char> {
    "https://github.com/"@ + owner + "/"@ + strip_suffix_or_self(repo, ".git"@) + ".git"@
}

/// `owner/repo@skill`: a single skill from a repository.
pub open spec fn at_skill_form(body: Seq<char>) -> bool {
    let at = rfind_char(body, '@');
    let head = body.subrange(0, at);
    let skill = body.subrange(at + 1, body.len() as int);
    let slash = find_char(head, '/');
    &&& at >= 0
    &&& head.len() > 0
    &&& skill.len() > 0
    &&& !contains_char(skill, '/')
    &&& count_char(head, '/') == 1
    &&& is_segment(head.subrange(0, slash))
    &&& is_segment(head.subrange(slash + 1, head.len() as int))
}

/// Bare `owner/repo`-style shorthand.
pub open spec fn parse_shorthand(
    body: Seq<char>,
    frag_ref: Option<Seq<char>>,
    frag_skill: Option<Seq<char>>,
    prefer_registry: bool,
) -> ParseOutcome {
    if at_skill_form(body) {
        let at = rfind_char(body, '@');
        let head = body.subrange(0, at);
        let skill = body.subrange(at + 1, body.len() as int);
        let slash = find_char(head, '/');
        Ok(SourceSpec::Git {
            url: github_url(head.subrange(0, slash), head.subrange(slash + 1, head.len() as int)),
            git_ref: frag_ref,
            subpath: None,
            skill_filter: Some(or_else(frag_skill, Some(skill)).unwrap()),
            host: GitHost::GitHub,
        })
    } else {
        let segs = nonempty_pieces(trim_class(body, CharClass::Exactly('/')), '/');
        if segs.len() < 2 || !is_segment(segs[0]) || !is_segment(segs[1]) {
            Err(SourceErrorSpec::Unrecognized(body))
        } else if exists|i: int| 2 <= i < segs.len() && segs[i] == ".."@ {
            Err(SourceErrorSpec::UnsafeSubpath(body))
        } else if exists|i: int| 2 <= i < segs.len() && !is_segment(#[trigger] segs[i]) {
            Err(SourceErrorSpec::Unrecognized(body))
        } else if prefer_registry && segs.len() == 3 && frag_ref is None && frag_skill is None {
            Ok(SourceSpec::Registry { source: segs[0] + "/"@ + segs[1], slug: segs[2] })
        } else {
            git_spec(
                github_url(segs[0], segs[1]),
                frag_ref,
                subpath_from(segs, 2),
                frag_skill,
                GitHost::GitHub,
            )
        }
    }
}

/// `git@host:path` scp-like sources.
pub open spec fn scp_source(rest: Seq<char>, frag_ref: Option<Seq<char>>, frag_skill: Option<Seq<char>>) -> ParseOutcome {
    let c = find_char(rest, ':');
    let host = rest.subrange(0, c);
    let path = trim_end_pattern(
        trim_end_class(rest.subrange(c + 1, rest.len() as int), CharClass::Exactly('/')),
        ".git"@,
    );
    Ok(SourceSpec::Git {
        url: "https://"@ + host + "/"@ + path + ".git"@,
        git_ref: frag_ref,
        subpath: None,
        skill_filter: frag_skill,
        host: host_family(host),
    })
}

pub open spec fn is_url_body(body: Seq<char>) -> bool {
    starts_with(body, "http://"@) || starts_with(body, "https://"@) || starts_with(body, "ssh://"@)
}

/// The result of reading `input`, with `home` as the user's home directory
/// and `cwd` as the directory relative paths resolve against.
///
/// A `gitlab:` prefix is rewritten to its `https://gitlab.com/` URL, which is
/// then read as a URL; a `github:` prefix is dropped and the rest is read as
/// a source with the registry reading of three segments switched off.
pub open spec fn parse_spec(input: Seq<char>, cwd: Seq<char>, home: Option<Seq<char>>, prefer_registry: bool) -> ParseOutcome
    decreases input.len(),
{
    let raw = trim(input);
    if raw.len() == 0 {
        Err(SourceErrorSpec::Empty)
    } else if exists|i: int| 0 <= i < raw.len() && is_control(#[trigger] raw[i]) {
        Err(SourceErrorSpec::ControlCharacter(raw))
    } else if local_path(raw, cwd, home) is Some {
        Ok(SourceSpec::Local { path: local_path(raw, cwd, home).unwrap() })
    } else {
        let (body, frag_ref, frag_skill) = split_fragment(raw);
        if starts_with(body, "github:"@) {
            let next = rejoin(body.subrange(7, body.len() as int), frag_ref, frag_skill);
            proof {
                lemma_rejoin_shorter(input);
            }
            parse_spec(next, cwd, home, false)
        } else if starts_with(body, "gitlab:"@) {
            let url = rejoin("https://gitlab.com/"@ + body.subrange(7, body.len() as int), frag_ref, frag_skill);
            let (b2, r2, s2) = split_fragment(trim(url));
            parse_url(b2, r2, s2)
        } else if starts_with(body, "git@"@) && find_char(body.subrange(4, body.len() as int), ':') >= 0 {
            scp_source(body.subrange(4, body.len() as int), frag_ref, frag_skill)
        } else if is_url_body(body) {
            parse_url(body, frag_ref, frag_skill)
        } else {
            parse_shorthand(body, frag_ref, frag_skill, prefer_registry)
        }
    }
}

// ---------------------------------------------------------------------------
// Lemmas
// ---------------------------------------------------------------------------

pub proof fn lemma_trim_len(s: Seq<char>)
    ensures
        trim(s).len() <= s.len(),
{
    lemma_trim_class_len(s, CharClass::Whitespace);
}

pub proof fn lemma_trim_class_len(s: Seq<char>, cls: CharClass)
    ensures
        trim_class(s, cls).len() <= s.len(),
        crate::text::trim_start_class(s, cls).len() <= s.len(),
{
    lemma_trim_start_len(s, cls);
    lemma_trim_end_len(crate::text::trim_start_class(s, cls), cls);
}

proof fn lemma_trim_start_len(s: Seq<char>, cls: CharClass)
    ensures
        crate::text::trim_start_class(s, cls).len() <= s.len(),
    decreases s.len(),
{
    if s.len() > 0 && crate::text::in_class(cls, s[0]) {
        lemma_trim_start_len(s.drop_first(), cls);
    }
}

proof fn lemma_trim_end_len(s: Seq<char>, cls: CharClass)
    ensures
        crate::text::trim_end_class(s, cls).len() <= s.len(),
    decreases s.len(),
{
    if s.len() > 0 && crate::text::in_class(cls, s.last()) {
        lemma_trim_end_len(s.drop_last(), cls);
    }
}

/// Dropping a `github:` prefix shortens the text that is read again.
pub proof fn lemma_rejoin_shorter(input: Seq<char>)
    ensures
        ({
            let raw = trim(input);
            let (body, frag_ref, frag_skill) = split_fragment(raw);
            starts_with(body, "github:"@) ==> rejoin(
                body.subrange(7, body.len() as int),
                frag_ref,
                frag_skill,
            ).len() < input.len()
        }),
{
    let raw = trim(input);
    lemma_trim_len(input);
    let (body, frag_ref, frag_skill) = split_fragment(raw);
    lemma_find_class(raw, CharClass::Exactly('#'));
    let h = find_char(raw, '#');
    if h >= 0 {
        let frag = raw.subrange(h + 1, raw.len() as int);
        lemma_find_class(frag, CharClass::Exactly('@'));
    }
    if starts_with(body, "github:"@) {
        reveal_strlit("github:");
        assert(body.len() >= 7);
    }
}


// ---------------------------------------------------------------------------
// Executable parsing
// ---------------------------------------------------------------------------

fn opt_string(o: &Option<Vec<char>>) -> (r: Option<String>)
    ensures
        opt_str_view(r) == opt_chars_view(*o),
{
    match o {
        Some(v) => Some(string_of(v)),
        None => None,
    }
}

fn copy_chars(v: &[char]) -> (r: Vec<char>)
    ensures
        r@ == v@,
{
    let r = slice_chars(v, 0, v.len());
    proof {
        assert(v@.subrange(0, v@.len() as int) =~= v@);
    }
    r
}

fn copy_opt(o: &Option<Vec<char>>) -> (r: Option<Vec<char>>)
    ensures
        opt_chars_view(r) == opt_chars_view(*o),
{
    match o {
        Some(v) => Some(copy_chars(v)),
        None => None,
    }
}

/// `v[a..b]` of a list of character vectors.
fn clone_pieces(v: &Vec<Vec<char>>, a: usize, b: usize) -> (r: Vec<Vec<char>>)
    requires
        a <= b <= v@.len(),
    ensures
        views(r@) == views(v@).subrange(a as int, b as int),
{
    let mut r: Vec<Vec<char>> = Vec::new();
    let mut i = a;
    while i < b
        invariant
            a <= i <= b <= v@.len(),
            views(r@) == views(v@).subrange(a as int, i as int),
        decreases b - i,
    {
        let c = copy_chars(&v[i]);
        proof {
            assert(c@ == v@[i as int]@);
        }
        let ghost before = r@;
        r.push(c);
        i = i + 1;
        proof {
            assert(views(r@) =~= views(before).push(c@));
            assert(views(r@) =~= views(v@).subrange(a as int, i as int));
        }
    }
    r
}

struct Fragment {
    body: Vec<char>,
    git_ref: Option<Vec<char>>,
    skill: Option<Vec<char>>,
}

spec fn fragment_view(f: Fragment) -> (Seq<char>, Option<Seq<char>>, Option<Seq<char>>) {
    (f.body@, opt_chars_view(f.git_ref), opt_chars_view(f.skill))
}

fn nonempty_or_none(v: Vec<char>) -> (r: Option<Vec<char>>)
    ensures
        opt_chars_view(r) == if v@.len() > 0 { Some(v@) } else { None },
{
    if v.len() > 0 {
        Some(v)
    } else {
        None
    }
}

fn split_fragment_exec(input: &[char]) -> (r: Fragment)
    ensures
        fragment_view(r) == split_fragment(input@),
{
    match find_char_exec(input, '#') {
        None => Fragment { body: copy_chars(input), git_ref: None, skill: None },
        Some(h) => {
            let body = slice_chars(input, 0, h);
            let frag = tail(input, h + 1);
            if body.len() == 0 || frag.len() == 0 {
                Fragment { body: copy_chars(input), git_ref: None, skill: None }
            } else {
                match find_char_exec(&frag, '@') {
                    None => Fragment { body, git_ref: Some(frag), skill: None },
                    Some(a) => {
                        let r = slice_chars(&frag, 0, a);
                        let s = tail(&frag, a + 1);
                        Fragment { body, git_ref: nonempty_or_none(r), skill: nonempty_or_none(s) }
                    },
                }
            }
        },
    }
}

fn rejoin_exec(body: &[char], git_ref: &Option<Vec<char>>, skill: &Option<Vec<char>>) -> (r: Vec<char>)
    ensures
        r@ == rejoin(body@, opt_chars_view(*git_ref), opt_chars_view(*skill)),
{
    let mut r = copy_chars(body);
    match (git_ref, skill) {
        (Some(g), Some(s)) => {
            r.push('#');
            append_chars(&mut r, g);
            r.push('@');
            append_chars(&mut r, s);
            proof {
                assert(r@ =~= body@.push('#') + g@.push('@') + s@);
            }
        },
        (Some(g), None) => {
            r.push('#');
            append_chars(&mut r, g);
        },
        (None, Some(s)) => {
            r.push('#');
            r.push('@');
            append_chars(&mut r, s);
        },
        (None, None) => {},
    }
    r
}

fn local_path_exec(raw: &[char], cwd: &[char], home: &Option<Vec<char>>) -> (r: Option<Vec<char>>)
    ensures
        opt_chars_view(r) == local_path(raw@, cwd@, opt_chars_view(*home)),
{
    if eq_chars(raw, &chars_of(".")) || eq_chars(raw, &chars_of("..")) {
        return Some(path_join_exec(cwd, raw));
    }
    if starts_with_exec(raw, &chars_of("~/")) {
        proof {
            reveal_strlit("~/");
        }
        return match home {
            Some(h) => Some(path_join_exec(h, &tail(raw, 2))),
            None => None,
        };
    }
    if eq_chars(raw, &chars_of("~")) {
        return copy_opt(home);
    }
    if starts_with_exec(raw, &chars_of("./")) || starts_with_exec(raw, &chars_of("../")) {
        return Some(path_join_exec(cwd, raw));
    }
    if is_absolute_exec(raw) {
        return Some(copy_chars(raw));
    }
    if starts_with_exec(raw, &chars_of(".\\")) || starts_with_exec(raw, &chars_of("..\\")) {
        return Some(path_join_exec(cwd, raw));
    }
    None
}

fn host_family_exec(host: &[char]) -> (r: GitHost)
    ensures
        r == host_family(host@),
{
    let h = strip_prefix_or_self_exec(&lower_exec(host), &chars_of("www."));
    if eq_chars(&h, &chars_of("github.com")) || ends_with_exec(&h, &chars_of(".github.com")) {
        GitHost::GitHub
    } else if eq_chars(&h, &chars_of("gitlab.com")) || ends_with_exec(&h, &chars_of(".gitlab.com")) {
        GitHost::GitLab
    } else {
        GitHost::Other
    }
}

pub open spec fn subpath_view(r: Result<Option<Vec<char>>, SkillSourceError>) -> Result<Option<Seq<char>>, SourceErrorSpec> {
    match r {
        Ok(o) => Ok(opt_chars_view(o)),
        Err(e) => Err(e@),
    }
}

#[verifier::loop_isolation(false)]
fn sanitize_subpath_exec(raw: &[char]) -> (r: Result<Option<Vec<char>>, SkillSourceError>)
    ensures
        subpath_view(r) == sanitize_subpath(raw@),
{
    let t = trim_class_exec(raw, &CharClass::Exactly('/'));
    if t.len() == 0 {
        return Ok(None);
    }
    let segs = split_class_exec(&t, &CharClass::Either('/', '\\'));
    let dot = chars_of(".");
    let dotdot = chars_of("..");
    let ghost sv = views(segs@);
    let mut parts: Vec<Vec<char>> = Vec::new();
    let mut k: usize = 0;
    while k < segs.len()
        invariant
            k <= segs@.len(),
            sv == views(segs@),
            sv == split_class(t@, CharClass::Either('/', '\\')),
            dot@ == "."@,
            dotdot@ == ".."@,
            views(parts@) == keep_parts(sv.subrange(0, k as int)),
            forall|j: int| 0 <= j < k ==> sv[j] != ".."@,
        decreases segs@.len() - k,
    {
        proof {
            assert(sv.subrange(0, k + 1).drop_last() =~= sv.subrange(0, k as int));
            assert(sv.subrange(0, k + 1).last() == sv[k as int]);
            assert(sv[k as int] == segs@[k as int]@);
        }
        if eq_chars(&segs[k], &dotdot) {
            proof {
                assert(sv[k as int] == ".."@);
                assert(has_dotdot(sv));
            }
            return Err(SkillSourceError::UnsafeSubpath(string_of(raw)));
        }
        if segs[k].len() > 0 && !eq_chars(&segs[k], &dot) {
            let ghost before = parts@;
            parts.push(copy_chars(&segs[k]));
            proof {
                assert(views(parts@) =~= views(before).push(sv[k as int]));
            }
        }
        k = k + 1;
    }
    proof {
        assert(sv.subrange(0, sv.len() as int) =~= sv);
        assert(!has_dotdot(sv));
    }
    if parts.len() == 0 {
        Ok(None)
    } else {
        Ok(Some(join_exec(&parts, '/')))
    }
}

fn subpath_from_exec(segs: &Vec<Vec<char>>, from: usize) -> (r: Result<Option<Vec<char>>, SkillSourceError>)
    ensures
        subpath_view(r) == subpath_from(views(segs@), from as int),
{
    if segs.len() > from {
        let part = clone_pieces(segs, from, segs.len());
        let joined = join_exec(&part, '/');
        sanitize_subpath_exec(&joined)
    } else {
        Ok(None)
    }
}

pub proof fn lemma_find_elem(s: Seq<Seq<char>>, x: Seq<char>)
    ensures
        -1 <= find_elem(s, x) < s.len(),
        find_elem(s, x) >= 0 ==> s[find_elem(s, x)] == x,
        forall|j: int| 0 <= j < s.len() && (find_elem(s, x) < 0 || j < find_elem(s, x)) ==> #[trigger] s[j] != x,
    decreases s.len(),
{
    if s.len() > 0 && s[0] != x {
        let t = s.drop_first();
        lemma_find_elem(t, x);
        assert forall|j: int| 0 <= j < s.len() && (find_elem(s, x) < 0 || j < find_elem(s, x)) implies #[trigger] s[j] != x by {
            if j > 0 {
                assert(s[j] == t[j - 1]);
            }
        }
    }
}

fn find_elem_exec(s: &Vec<Vec<char>>, x: &[char]) -> (r: Option<usize>)
    ensures
        match r {
            Some(i) => i as int == find_elem(views(s@), x@) && i < s@.len(),
            None => find_elem(views(s@), x@) == -1,
        },
{
    let mut i: usize = 0;
    while i < s.len()
        invariant
            i <= s@.len(),
            forall|j: int| 0 <= j < i ==> #[trigger] views(s@)[j] != x@,
        decreases s@.len() - i,
    {
        proof {
            assert(views(s@)[i as int] == s@[i as int]@);
        }
        if eq_chars(&s[i], x) {
            proof {
                lemma_find_elem(views(s@), x@);
                let f = find_elem(views(s@), x@);
                if f >= 0 && f < i {
                    assert(views(s@)[f] != x@);
                }
            }
            return Some(i);
        }
        i = i + 1;
    }
    proof {
        lemma_find_elem(views(s@), x@);
        let f = find_elem(views(s@), x@);
        if f >= 0 {
            assert(views(s@)[f] == x@);
        }
    }
    None
}

fn make_git(
    url: Vec<char>,
    git_ref: &Option<Vec<char>>,
    subpath: Result<Option<Vec<char>>, SkillSourceError>,
    skill_filter: &Option<Vec<char>>,
    host: GitHost,
) -> (r: Result<SkillSource, SkillSourceError>)
    ensures
        outcome_view(r) == git_spec(
            url@,
            opt_chars_view(*git_ref),
            subpath_view(subpath),
            opt_chars_view(*skill_filter),
            host,
        ),
{
    match subpath {
        Ok(sub) => Ok(
            SkillSource::Git {
                url: string_of(&url),
                git_ref: opt_string(git_ref),
                subpath: opt_string(&sub),
                skill_filter: opt_string(skill_filter),
                host,
            },
        ),
        Err(e) => Err(e),
    }
}

fn parse_url_exec(body: &[char], frag_ref: &Option<Vec<char>>, frag_skill: &Option<Vec<char>>) -> (r: Result<SkillSource, SkillSourceError>)
    ensures
        outcome_view(r) == parse_url(body@, opt_chars_view(*frag_ref), opt_chars_view(*frag_skill)),
{
    let sep = chars_of("://");
    let p = match find_pattern_exec(body, &sep) {
        Some(p) => p,
        None => return Err(SkillSourceError::Unrecognized(string_of(body))),
    };
    proof {
        reveal_strlit("://");
    }
    let scheme = slice_chars(body, 0, p);
    let rest = strip_prefix_or_self_exec(&tail(body, p + 3), &chars_of("git@"));
    let sl = match find_char_exec(&rest, '/') {
        Some(sl) => sl,
        None => return Err(SkillSourceError::Unrecognized(string_of(body))),
    };
    let host = slice_chars(&rest, 0, sl);
    let path = tail(&rest, sl + 1);
    let host_lower = strip_prefix_or_self_exec(&lower_exec(&host), &chars_of("www."));
    let family = host_family_exec(&host);
    let scheme_out = if eq_chars(&scheme, &chars_of("ssh")) {
        chars_of("ssh")
    } else {
        chars_of("https")
    };
    let mut prefix = concat(&scheme_out, &sep);
    append_chars(&mut prefix, &host_lower);
    append_chars(&mut prefix, &chars_of("/"));
    let segs = drop_empty_exec(&split_class_exec(&path, &CharClass::Exactly('/')));
    let ghost sv = views(segs@);
    proof {
        assert(sv == nonempty_pieces(path@, '/'));
    }
    if segs.len() < 2 {
        return Err(SkillSourceError::Unrecognized(string_of(body)));
    }
    let dot_git = chars_of(".git");
    if family == GitHost::GitLab {
        let dash = chars_of("-");
        if let Some(m) = find_elem_exec(&segs, &dash) {
            if m >= 2 && m + 1 < segs.len() && eq_chars(&segs[m + 1], &chars_of("tree")) {
                proof {
                    assert(sv[m + 1] == segs@[m + 1]@);
                    assert(gitlab_tree_marker(sv) == m);
                }
                let repo_path = join_exec(&clone_pieces(&segs, 0, m), '/');
                let git_ref = if m + 2 < segs.len() {
                    proof {
                        assert(sv[m + 2] == segs@[m + 2]@);
                    }
                    Some(copy_chars(&segs[m + 2]))
                } else {
                    None
                };
                let chosen_ref = match git_ref {
                    Some(g) => Some(g),
                    None => copy_opt(frag_ref),
                };
                let mut url = concat(&prefix, &repo_path);
                append_chars(&mut url, &dot_git);
                let sub = if m + 2 < segs.len() {
                    subpath_from_exec(&segs, m + 3)
                } else {
                    Ok(None)
                };
                return make_git(url, &chosen_ref, sub, frag_skill, family);
            }
        }
        proof {
            if gitlab_tree_marker(sv) >= 0 {
                let m = find_elem(sv, "-"@);
                assert(sv[m + 1] == segs@[m + 1]@);
            }
        }
    }
    proof {
        assert(sv[0] == segs@[0]@);
        assert(sv[1] == segs@[1]@);
    }
    let mut base = concat(&prefix, &segs[0]);
    append_chars(&mut base, &chars_of("/"));
    append_chars(&mut base, &trim_end_pattern_exec(&segs[1], &dot_git));
    append_chars(&mut base, &dot_git);
    if segs.len() >= 4 && eq_chars(&segs[2], &chars_of("tree")) {
        proof {
            assert(sv[2] == segs@[2]@);
            assert(sv[3] == segs@[3]@);
        }
        let sub = subpath_from_exec(&segs, 4);
        return make_git(base, &Some(copy_chars(&segs[3])), sub, frag_skill, family);
    }
    proof {
        if segs@.len() >= 4 {
            assert(sv[2] == segs@[2]@);
        }
    }
    let sub = subpath_from_exec(&segs, 2);
    make_git(base, frag_ref, sub, frag_skill, family)
}

fn is_segment_exec(s: &[char]) -> (r: bool)
    ensures
        r == is_segment(s@),
{
    if s.len() == 0 || eq_chars(s, &chars_of(".")) || eq_chars(s, &chars_of("..")) {
        return false;
    }
    let mut i: usize = 0;
    while i < s.len()
        invariant
            i <= s@.len(),
            forall|j: int| 0 <= j < i ==> is_segment_char(#[trigger] s@[j]),
        decreases s@.len() - i,
    {
        let c = s[i];
        if !(('a' <= c && c <= 'z') || ('A' <= c && c <= 'Z') || ('0' <= c && c <= '9') || c == '-'
            || c == '_' || c == '.') {
            return false;
        }
        i = i + 1;
    }
    true
}

fn github_url_exec(owner: &[char], repo: &[char]) -> (r: Vec<char>)
    ensures
        r@ == github_url(owner@, repo@),
{
    let mut r = chars_of("https://github.com/");
    append_chars(&mut r, owner);
    append_chars(&mut r, &chars_of("/"));
    append_chars(&mut r, &strip_suffix_or_self_exec(repo, &chars_of(".git")));
    append_chars(&mut r, &chars_of(".git"));
    r
}

#[verifier::loop_isolation(false)]
fn parse_shorthand_exec(
    body: &[char],
    frag_ref: &Option<Vec<char>>,
    frag_skill: &Option<Vec<char>>,
    prefer_registry: bool,
) -> (r: Result<SkillSource, SkillSourceError>)
    ensures
        outcome_view(r) == parse_shorthand(
            body@,
            opt_chars_view(*frag_ref),
            opt_chars_view(*frag_skill),
            prefer_registry,
        ),
{
    if let Some(at) = rfind_char_exec(body, '@') {
        let head = slice_chars(body, 0, at);
        let skill = tail(body, at + 1);
        if head.len() > 0 && skill.len() > 0 && !contains_char_exec(&skill, '/') && count_char_exec(
            &head,
            '/',
        ) == 1 {
            if let Some(slash) = find_char_exec(&head, '/') {
                let owner = slice_chars(&head, 0, slash);
                let repo = tail(&head, slash + 1);
                if is_segment_exec(&owner) && is_segment_exec(&repo) {
                    let filter = match frag_skill {
                        Some(f) => copy_chars(f),
                        None => skill,
                    };
                    return Ok(
                        SkillSource::Git {
                            url: string_of(&github_url_exec(&owner, &repo)),
                            git_ref: opt_string(frag_ref),
                            subpath: None,
                            skill_filter: Some(string_of(&filter)),
                            host: GitHost::GitHub,
                        },
                    );
                }
            } else {
                proof {
                    lemma_find_class(head@, CharClass::Exactly('/'));
                    lemma_count_char_zero(head@, '/');
                }
            }
        }
    }
    let trimmed = trim_class_exec(body, &CharClass::Exactly('/'));
    let segs = drop_empty_exec(&split_class_exec(&trimmed, &CharClass::Exactly('/')));
    let ghost sv = views(segs@);
    proof {
        assert(sv == nonempty_pieces(trim_class(body@, CharClass::Exactly('/')), '/'));
    }
    if segs.len() < 2 || !is_segment_exec(&segs[0]) || !is_segment_exec(&segs[1]) {
        proof {
            if segs@.len() >= 2 {
                assert(sv[0] == segs@[0]@);
                assert(sv[1] == segs@[1]@);
            }
        }
        return Err(SkillSourceError::Unrecognized(string_of(body)));
    }
    proof {
        assert(sv[0] == segs@[0]@);
        assert(sv[1] == segs@[1]@);
    }
    let dotdot = chars_of("..");
    let mut i: usize = 2;
    while i < segs.len()
        invariant
            2 <= i <= segs@.len(),
            sv == views(segs@),
            dotdot@ == ".."@,
            forall|j: int| 2 <= j < i ==> #[trigger] sv[j] != ".."@,
        decreases segs@.len() - i,
    {
        proof {
            assert(sv[i as int] == segs@[i as int]@);
        }
        if eq_chars(&segs[i], &dotdot) {
            proof {
                assert(sv[i as int] == ".."@);
            }
            return Err(SkillSourceError::UnsafeSubpath(string_of(body)));
        }
        i = i + 1;
    }
    let mut i: usize = 2;
    while i < segs.len()
        invariant
            2 <= i <= segs@.len(),
            sv == views(segs@),
            forall|j: int| 2 <= j < segs@.len() ==> #[trigger] sv[j] != ".."@,
            forall|j: int| 2 <= j < i ==> is_segment(#[trigger] sv[j]),
        decreases segs@.len() - i,
    {
        proof {
            assert(sv[i as int] == segs@[i as int]@);
        }
        if !is_segment_exec(&segs[i]) {
            proof {
                assert(!is_segment(sv[i as int]));
            }
            return Err(SkillSourceError::Unrecognized(string_of(body)));
        }
        i = i + 1;
    }
    if prefer_registry && segs.len() == 3 && frag_ref.is_none() && frag_skill.is_none() {
        proof {
            assert(sv[2] == segs@[2]@);
        }
        let mut source = copy_chars(&segs[0]);
        append_chars(&mut source, &chars_of("/"));
        append_chars(&mut source, &segs[1]);
        return Ok(SkillSource::Registry { source: string_of(&source), slug: string_of(&segs[2]) });
    }
    let url = github_url_exec(&segs[0], &segs[1]);
    let sub = subpath_from_exec(&segs, 2);
    make_git(url, frag_ref, sub, frag_skill, GitHost::GitHub)
}

proof fn lemma_count_char_zero(s: Seq<char>, c: char)
    requires
        forall|j: int| 0 <= j < s.len() ==> #[trigger] s[j] != c,
    ensures
        count_char(s, c) == 0,
    decreases s.len(),
{
    if s.len() > 0 {
        let t = s.drop_last();
        assert forall|j: int| 0 <= j < t.len() implies #[trigger] t[j] != c by {
            assert(t[j] == s[j]);
        }
        lemma_count_char_zero(t, c);
    }
}

fn scp_source_exec(rest: &[char], frag_ref: &Option<Vec<char>>, frag_skill: &Option<Vec<char>>, c: usize) -> (r: Result<SkillSource, SkillSourceError>)
    requires
        c as int == find_char(rest@, ':'),
        c < rest@.len() <= usize::MAX,
    ensures
        outcome_view(r) == scp_source(rest@, opt_chars_view(*frag_ref), opt_chars_view(*frag_skill)),
{
    let host = slice_chars(rest, 0, c);
    let path = trim_end_pattern_exec(
        &trim_end_class_exec(&tail(rest, c + 1), &CharClass::Exactly('/')),
        &chars_of(".git"),
    );
    let mut url = chars_of("https://");
    append_chars(&mut url, &host);
    append_chars(&mut url, &chars_of("/"));
    append_chars(&mut url, &path);
    append_chars(&mut url, &chars_of(".git"));
    Ok(
        SkillSource::Git {
            url: string_of(&url),
            git_ref: opt_string(frag_ref),
            subpath: None,
            skill_filter: opt_string(frag_skill),
            host: host_family_exec(&host),
        },
    )
}

fn parse_chars(input: &[char], cwd: &[char], home: &Option<Vec<char>>, prefer_registry: bool) -> (r: Result<SkillSource, SkillSourceError>)
    ensures
        outcome_view(r) == parse_spec(input@, cwd@, opt_chars_view(*home), prefer_registry),
    decreases input@.len(),
{
    let raw = trim_ws(input);
    if raw.len() == 0 {
        return Err(SkillSourceError::Empty);
    }
    if any_control(&raw) {
        return Err(SkillSourceError::ControlCharacter(string_of(&raw)));
    }
    if let Some(path) = local_path_exec(&raw, cwd, home) {
        return Ok(SkillSource::Local { path: string_of(&path) });
    }
    let frag = split_fragment_exec(&raw);
    let body = &frag.body;
    if starts_with_exec(body, &chars_of("github:")) {
        proof {
            reveal_strlit("github:");
            lemma_rejoin_shorter(input@);
        }
        let next = rejoin_exec(&tail(body, 7), &frag.git_ref, &frag.skill);
        return parse_chars(&next, cwd, home, false);
    }
    if starts_with_exec(body, &chars_of("gitlab:")) {
        proof {
            reveal_strlit("gitlab:");
        }
        let url = concat(&chars_of("https://gitlab.com/"), &tail(body, 7));
        let joined = rejoin_exec(&url, &frag.git_ref, &frag.skill);
        let f2 = split_fragment_exec(&trim_ws(&joined));
        return parse_url_exec(&f2.body, &f2.git_ref, &f2.skill);
    }
    if starts_with_exec(body, &chars_of("git@")) {
        proof {
            reveal_strlit("git@");
        }
        let rest = tail(body, 4);
        if let Some(c) = find_char_exec(&rest, ':') {
            return scp_source_exec(&rest, &frag.git_ref, &frag.skill, c);
        }
    }
    if starts_with_exec(body, &chars_of("http://")) || starts_with_exec(body, &chars_of("https://"))
        || starts_with_exec(body, &chars_of("ssh://")) {
        return parse_url_exec(body, &frag.git_ref, &frag.skill);
    }
    parse_shorthand_exec(body, &frag.git_ref, &frag.skill, prefer_registry)
}


/// The user's home directory, from `dirs::home_dir`.
///
/// Its value depends on the environment (`$HOME`, the user database), so no
/// contract is given; the parser is verified for every value it may return.
#[verifier::external_body]
fn home_dir() -> (r: Option<String>) {
    dirs::home_dir().map(|p| p.to_string_lossy().into_owned())
}

/// The characters of an optional string slice.
pub open spec fn opt_ref_view(o: Option<&str>) -> Option<Seq<char>> {
    match o {
        Some(s) => Some(s@),
        None => None,
    }
}

/// Parse `input` into a [`SkillSource`], resolving relative paths against
/// `cwd` and `~` against `home`.
///
/// `prefer_registry` selects how a bare three-segment `owner/repo/slug` is
/// read: as a registry id, or as a repository subdirectory.
pub fn parse_skill_source_with_home(
    input: &str,
    cwd: &str,
    home: Option<&str>,
    prefer_registry: bool,
) -> (r: Result<SkillSource, SkillSourceError>)
    ensures
        outcome_view(r) == parse_spec(input@, cwd@, opt_ref_view(home), prefer_registry),
{
    let home_chars = match home {
        Some(h) => Some(chars_of(h)),
        None => None,
    };
    parse_chars(&chars_of(input), &chars_of(cwd), &home_chars, prefer_registry)
}

/// Parse `input` into a [`SkillSource`], resolving relative paths against `cwd`
/// and `~` against the user's home directory.
pub fn parse_skill_source(input: &str, cwd: &str, prefer_registry: bool) -> (r: Result<
    SkillSource,
    SkillSourceError,
>)
    ensures
        exists|home: Option<Seq<char>>|
            outcome_view(r) == #[trigger] parse_spec(input@, cwd@, home, prefer_registry),
{
    let home = home_dir();
    let home_chars = match &home {
        Some(h) => Some(chars_of(h.as_str())),
        None => None,
    };
    let r = parse_chars(&chars_of(input), &chars_of(cwd), &home_chars, prefer_registry);
    proof {
        assert(outcome_view(r) == parse_spec(input@, cwd@, opt_chars_view(home_chars), prefer_registry));
    }
    r
}

pub open spec fn identity_spec(s: SourceSpec) -> Seq<char> {
    match s {
        SourceSpec::Local { path } => "local:"@ + path,
        SourceSpec::Git { url, git_ref, subpath, .. } => {
            let with_ref = match git_ref {
                Some(r) => url.push('#') + r,
                None => url,
            };
            match subpath {
                Some(sub) => with_ref.push('/') + sub,
                None => with_ref,
            }
        },
        SourceSpec::Registry { source, slug } => source.push('/') + slug,
    }
}

pub open spec fn kind_spec(s: SourceSpec) -> Seq<char> {
    match s {
        SourceSpec::Local { .. } => "local"@,
        SourceSpec::Git { host, .. } => host.label(),
        SourceSpec::Registry { .. } => "registry"@,
    }
}

impl SkillSource {
    /// Stable identity used as the lockfile key prefix and for dedup.
    pub fn identity(&self) -> (r: String)
        ensures
            r@ == identity_spec(self@),
    {
        match self {
            SkillSource::Local { path } => {
                let mut id = chars_of("local:");
                append_chars(&mut id, &chars_of(path.as_str()));
                string_of(&id)
            },
            SkillSource::Git { url, git_ref, subpath, .. } => {
                let mut id = chars_of(url.as_str());
                if let Some(r) = git_ref {
                    id.push('#');
                    append_chars(&mut id, &chars_of(r.as_str()));
                }
                if let Some(sub) = subpath {
                    id.push('/');
                    append_chars(&mut id, &chars_of(sub.as_str()));
                }
                string_of(&id)
            },
            SkillSource::Registry { source, slug } => {
                let mut id = chars_of(source.as_str());
                id.push('/');
                append_chars(&mut id, &chars_of(slug.as_str()));
                string_of(&id)
            },
        }
    }

    /// Short label describing the source kind, for listings and JSON.
    pub fn kind(&self) -> (r: &'static str)
        ensures
            r@ == kind_spec(self@),
    {
        match self {
            SkillSource::Local { .. } => "local",
            SkillSource::Git { host, .. } => host.as_str(),
            SkillSource::Registry { .. } => "registry",
        }
    }
}

// ---------------------------------------------------------------------------
// Laws
// ---------------------------------------------------------------------------

proof fn lemma_ends_with_dot_git(prefix: Seq<char>)
    ensures
        ends_with(prefix + ".git"@, ".git"@),
{
    let s = prefix + ".git"@;
    assert(s.subrange(s.len() - ".git"@.len(), s.len() as int) =~= ".git"@);
}

/// A clone URL that starts with one of the two schemes git is driven with.
pub open spec fn has_clone_scheme(url: Seq<char>) -> bool {
    starts_with(url, "https://"@) || starts_with(url, "ssh://"@)
}

proof fn lemma_scheme_prefix(scheme: Seq<char>)
    requires
        scheme == "https"@ || scheme == "ssh"@,
    ensures
        has_clone_scheme(scheme + "://"@),
{
    reveal_strlit("https");
    reveal_strlit("ssh");
    reveal_strlit("://");
    reveal_strlit("https://");
    reveal_strlit("ssh://");
    let s = scheme + "://"@;
    if scheme == "https"@ {
        assert(s.subrange(0, 8) =~= "https://"@);
    } else {
        assert(s.subrange(0, 6) =~= "ssh://"@);
    }
}

proof fn lemma_https_prefix(rest: Seq<char>)
    ensures
        has_clone_scheme("https://"@ + rest),
        has_clone_scheme("https://github.com/"@ + rest),
{
    reveal_strlit("https://");
    reveal_strlit("https://github.com/");
    let s = "https://"@ + rest;
    assert(s.subrange(0, 8) =~= "https://"@);
    let t = "https://github.com/"@ + rest;
    assert(t.subrange(0, 8) =~= "https://"@);
}

proof fn lemma_scheme_extends(url: Seq<char>, more: Seq<char>)
    requires
        has_clone_scheme(url),
    ensures
        has_clone_scheme(url + more),
{
    let s = url + more;
    if starts_with(url, "https://"@) {
        assert(s.subrange(0, "https://"@.len() as int) =~= url.subrange(0, "https://"@.len() as int));
    } else {
        assert(s.subrange(0, "ssh://"@.len() as int) =~= url.subrange(0, "ssh://"@.len() as int));
    }
}

proof fn lemma_scheme_extends3(url: Seq<char>, a: Seq<char>, b: Seq<char>, c: Seq<char>)
    requires
        has_clone_scheme(url),
    ensures
        has_clone_scheme(url + a + b + c),
{
    lemma_scheme_extends(url, a);
    lemma_scheme_extends(url + a, b);
    lemma_scheme_extends(url + a + b, c);
}

proof fn lemma_parse_url_git(body: Seq<char>, frag_ref: Option<Seq<char>>, frag_skill: Option<Seq<char>>)
    ensures
        parse_url(body, frag_ref, frag_skill) matches Ok(SourceSpec::Git { url, .. }) ==> ends_with(url, ".git"@)
            && has_clone_scheme(url),
        parse_url(body, frag_ref, frag_skill) is Ok ==> parse_url(body, frag_ref, frag_skill) matches Ok(SourceSpec::Git { .. }),
{
    let p = find_pattern(body, "://"@);
    if p >= 0 {
        let scheme = body.subrange(0, p);
        let rest = strip_prefix_or_self(body.subrange(p + 3, body.len() as int), "git@"@);
        let sl = find_char(rest, '/');
        if sl >= 0 {
            let host = rest.subrange(0, sl);
            let path = rest.subrange(sl + 1, rest.len() as int);
            let host_lower = strip_prefix_or_self(lower_seq(host), "www."@);
            let scheme_out = if scheme == "ssh"@ { "ssh"@ } else { "https"@ };
            let prefix = scheme_out + "://"@ + host_lower + "/"@;
            let segs = nonempty_pieces(path, '/');
            lemma_scheme_prefix(scheme_out);
            lemma_scheme_extends(scheme_out + "://"@, host_lower);
            lemma_scheme_extends(scheme_out + "://"@ + host_lower, "/"@);
            if segs.len() >= 2 {
                let m = gitlab_tree_marker(segs);
                if m >= 0 {
                    let repo_path = join_with(segs.subrange(0, m), '/');
                    lemma_ends_with_dot_git(prefix + repo_path);
                    lemma_scheme_extends(prefix, repo_path);
                    lemma_scheme_extends(prefix + repo_path, ".git"@);
                }
                let tail = trim_end_pattern(segs[1], ".git"@);
                lemma_ends_with_dot_git(prefix + segs[0] + "/"@ + tail);
                lemma_scheme_extends3(prefix, segs[0], "/"@, tail);
                lemma_scheme_extends(prefix + segs[0] + "/"@ + tail, ".git"@);
            }
        }
    }
}

proof fn lemma_shorthand_git(
    body: Seq<char>,
    frag_ref: Option<Seq<char>>,
    frag_skill: Option<Seq<char>>,
    prefer_registry: bool,
)
    ensures
        parse_shorthand(body, frag_ref, frag_skill, prefer_registry) matches Ok(SourceSpec::Git { url, .. }) ==> ends_with(url, ".git"@)
            && has_clone_scheme(url),
        !prefer_registry ==> !(parse_shorthand(body, frag_ref, frag_skill, prefer_registry) matches Ok(SourceSpec::Registry { .. })),
{
    if at_skill_form(body) {
        let at = rfind_char(body, '@');
        let head = body.subrange(0, at);
        let slash = find_char(head, '/');
        let owner = head.subrange(0, slash);
        let repo = head.subrange(slash + 1, head.len() as int);
        lemma_github_url(owner, repo);
    } else {
        let segs = nonempty_pieces(trim_class(body, CharClass::Exactly('/')), '/');
        if segs.len() >= 2 {
            lemma_github_url(segs[0], segs[1]);
        }
    }
}

proof fn lemma_github_url(owner: Seq<char>, repo: Seq<char>)
    ensures
        ends_with(github_url(owner, repo), ".git"@),
        has_clone_scheme(github_url(owner, repo)),
{
    let stem = strip_suffix_or_self(repo, ".git"@);
    lemma_ends_with_dot_git("https://github.com/"@ + owner + "/"@ + stem);
    lemma_https_prefix(owner);
    lemma_scheme_extends3("https://github.com/"@ + owner, "/"@, stem, ".git"@);
}

/// A source written as a path relative to the working directory (`.`, `..`,
/// `./…` or `../…`, after trimming, with no control character) is a local source at
/// the working directory joined with it, whatever the home directory and
/// whether or not registry ids are preferred.
pub proof fn law_relative_paths_are_local(
    input: Seq<char>,
    cwd: Seq<char>,
    home: Option<Seq<char>>,
    prefer_registry: bool,
)
    requires
        trim(input) == "."@ || trim(input) == ".."@ || starts_with(trim(input), "./"@) || starts_with(
            trim(input),
            "../"@,
        ),
        forall|i: int| 0 <= i < trim(input).len() ==> !is_control(#[trigger] trim(input)[i]),
    ensures
        parse_spec(input, cwd, home, prefer_registry) == Ok::<SourceSpec, SourceErrorSpec>(
            SourceSpec::Local { path: path_join(cwd, trim(input)) },
        ),
{
    let raw = trim(input);
    if raw == "."@ || raw == ".."@ {
        reveal_strlit(".");
        reveal_strlit("..");
        assert(raw.len() > 0);
        assert(!(exists|i: int| 0 <= i < raw.len() && is_control(#[trigger] raw[i])));
    } else {
        reveal_strlit("./");
        reveal_strlit("../");
        reveal_strlit(".");
        reveal_strlit("..");
        reveal_strlit("~/");
        reveal_strlit("~");
        assert(raw.subrange(0, 2)[0] == raw[0]);
        assert(raw[0] == '.');
        if starts_with(raw, "./"@) {
            assert(raw.subrange(0, 2)[1] == raw[1]);
            assert(raw[1] == '/');
        } else {
            assert(raw.subrange(0, 3)[0] == raw[0]);
            assert(raw.len() >= 3);
        }
        assert(raw != "."@ && raw != ".."@) by {
            if raw == ".."@ {
                assert(raw[1] == '.');
            }
        }
        assert(!starts_with(raw, "~/"@)) by {
            if starts_with(raw, "~/"@) {
                assert(raw.subrange(0, 2)[0] == raw[0]);
            }
        }
        assert(raw != "~"@);
        assert(!(exists|i: int| 0 <= i < raw.len() && is_control(#[trigger] raw[i])));
    }
}

/// A source under the home directory (`~/…`, after trimming, with no control
/// character) is a local source at the home directory joined with the rest,
/// when the home directory is known.
pub proof fn law_home_paths_are_local(
    input: Seq<char>,
    cwd: Seq<char>,
    home: Seq<char>,
    prefer_registry: bool,
)
    requires
        starts_with(trim(input), "~/"@),
        forall|i: int| 0 <= i < trim(input).len() ==> !is_control(#[trigger] trim(input)[i]),
    ensures
        parse_spec(input, cwd, Some(home), prefer_registry) == Ok::<SourceSpec, SourceErrorSpec>(
            SourceSpec::Local { path: path_join(home, trim(input).subrange(2, trim(input).len() as int)) },
        ),
{
    let raw = trim(input);
    reveal_strlit(".");
    reveal_strlit("..");
    reveal_strlit("~/");
    assert(raw.subrange(0, 2)[0] == raw[0]);
    assert(raw[0] == '~');
    assert(raw != "."@ && raw != ".."@);
    assert(!(exists|i: int| 0 <= i < raw.len() && is_control(#[trigger] raw[i])));
}

/// A source that is an absolute path (after trimming, with no control
/// character) is a local source at exactly that path.
pub proof fn law_absolute_paths_are_local(
    input: Seq<char>,
    cwd: Seq<char>,
    home: Option<Seq<char>>,
    prefer_registry: bool,
)
    requires
        is_absolute(trim(input)),
        forall|i: int| 0 <= i < trim(input).len() ==> !is_control(#[trigger] trim(input)[i]),
    ensures
        parse_spec(input, cwd, home, prefer_registry) == Ok::<SourceSpec, SourceErrorSpec>(
            SourceSpec::Local { path: trim(input) },
        ),
{
    let raw = trim(input);
    reveal_strlit("./");
    reveal_strlit("../");
    reveal_strlit(".");
    reveal_strlit("..");
    reveal_strlit("~/");
    reveal_strlit("~");
    assert(raw[0] == '/');
    assert(raw != "."@ && raw != ".."@ && raw != "~"@);
    assert(!starts_with(raw, "~/"@) && !starts_with(raw, "./"@) && !starts_with(raw, "../"@)) by {
        if starts_with(raw, "~/"@) || starts_with(raw, "./"@) {
            assert(raw.subrange(0, 2)[0] == raw[0]);
        }
        if starts_with(raw, "../"@) {
            assert(raw.subrange(0, 3)[0] == raw[0]);
        }
    }
    assert(!(exists|i: int| 0 <= i < raw.len() && is_control(#[trigger] raw[i])));
}

/// A git source's identity names its subpath: with a subpath `sub` the
/// identity starts with the clone URL and ends with `/` and `sub`, with or
/// without a ref; two git sources with the same URL and ref but different
/// subpaths, or one with a subpath and one without, never share an identity.
pub proof fn law_git_identity_names_the_subpath(
    url: Seq<char>,
    git_ref: Option<Seq<char>>,
    sub: Seq<char>,
    other: Option<Seq<char>>,
    filter: Option<Seq<char>>,
    filter2: Option<Seq<char>>,
    host: GitHost,
    host2: GitHost,
)
    ensures
        ({
            let s = SourceSpec::Git { url, git_ref, subpath: Some(sub), skill_filter: filter, host };
            let t = SourceSpec::Git { url, git_ref, subpath: other, skill_filter: filter2, host: host2 };
            &&& starts_with(identity_spec(s), url)
            &&& ends_with(identity_spec(s), seq!['/'] + sub)
            &&& identity_spec(s) == identity_spec(t) ==> other == Some(sub)
        }),
{
    let s = SourceSpec::Git { url, git_ref, subpath: Some(sub), skill_filter: filter, host };
    let t = SourceSpec::Git { url, git_ref, subpath: other, skill_filter: filter2, host: host2 };
    let base = match git_ref {
        Some(r) => url.push('#') + r,
        None => url,
    };
    let id = identity_spec(s);
    assert(id == base.push('/') + sub);
    assert(id.subrange(0, url.len() as int) =~= url);
    assert(id.subrange(id.len() - (sub.len() + 1), id.len() as int) =~= seq!['/'] + sub);
    if identity_spec(s) == identity_spec(t) {
        match other {
            Some(o) => {
                let it = identity_spec(t);
                assert(it == base.push('/') + o);
                assert(o.len() == sub.len());
                assert(o =~= it.subrange(base.len() + 1int, it.len() as int));
                assert(sub =~= id.subrange(base.len() + 1int, id.len() as int));
            },
            None => {
                assert(identity_spec(t) == base);
                assert(id.len() > base.len());
            },
        }
    }
}

/// Every git source that parsing produces has a clone URL that starts with
/// `https://` or `ssh://` and ends in `.git`.
pub proof fn law_git_url_ends_with_dot_git(
    input: Seq<char>,
    cwd: Seq<char>,
    home: Option<Seq<char>>,
    prefer_registry: bool,
)
    ensures
        parse_spec(input, cwd, home, prefer_registry) matches Ok(SourceSpec::Git { url, .. }) ==> ends_with(url, ".git"@)
            && has_clone_scheme(url),
    decreases input.len(),
{
    let raw = trim(input);
    if raw.len() > 0 && !(exists|i: int| 0 <= i < raw.len() && is_control(#[trigger] raw[i]))
        && local_path(raw, cwd, home) is None {
        let (body, frag_ref, frag_skill) = split_fragment(raw);
        if starts_with(body, "github:"@) {
            let next = rejoin(body.subrange(7, body.len() as int), frag_ref, frag_skill);
            lemma_rejoin_shorter(input);
            law_git_url_ends_with_dot_git(next, cwd, home, false);
        } else if starts_with(body, "gitlab:"@) {
            let url = rejoin("https://gitlab.com/"@ + body.subrange(7, body.len() as int), frag_ref, frag_skill);
            let (b2, r2, s2) = split_fragment(trim(url));
            lemma_parse_url_git(b2, r2, s2);
        } else if starts_with(body, "git@"@) && find_char(body.subrange(4, body.len() as int), ':') >= 0 {
            let rest = body.subrange(4, body.len() as int);
            let c = find_char(rest, ':');
            let host = rest.subrange(0, c);
            let path = trim_end_pattern(
                trim_end_class(rest.subrange(c + 1, rest.len() as int), CharClass::Exactly('/')),
                ".git"@,
            );
            lemma_ends_with_dot_git("https://"@ + host + "/"@ + path);
            lemma_https_prefix(host);
            lemma_scheme_extends3("https://"@ + host, "/"@, path, ".git"@);
        } else if is_url_body(body) {
            lemma_parse_url_git(body, frag_ref, frag_skill);
        } else {
            lemma_shorthand_git(body, frag_ref, frag_skill, prefer_registry);
        }
    }
}

/// A registry source is only ever produced when the registry reading of
/// three-segment shorthand was asked for.
pub proof fn law_registry_only_when_preferred(input: Seq<char>, cwd: Seq<char>, home: Option<Seq<char>>)
    ensures
        !(parse_spec(input, cwd, home, false) matches Ok(SourceSpec::Registry { .. })),
    decreases input.len(),
{
    let raw = trim(input);
    if raw.len() > 0 && !(exists|i: int| 0 <= i < raw.len() && is_control(#[trigger] raw[i]))
        && local_path(raw, cwd, home) is None {
        let (body, frag_ref, frag_skill) = split_fragment(raw);
        if starts_with(body, "github:"@) {
            let next = rejoin(body.subrange(7, body.len() as int), frag_ref, frag_skill);
            lemma_rejoin_shorter(input);
            law_registry_only_when_preferred(next, cwd, home);
        } else if starts_with(body, "gitlab:"@) {
            let url = rejoin("https://gitlab.com/"@ + body.subrange(7, body.len() as int), frag_ref, frag_skill);
            let (b2, r2, s2) = split_fragment(trim(url));
            lemma_parse_url_git(b2, r2, s2);
        } else if starts_with(body, "git@"@) && find_char(body.subrange(4, body.len() as int), ':') >= 0 {
        } else if is_url_body(body) {
            lemma_parse_url_git(body, frag_ref, frag_skill);
        } else {
            lemma_shorthand_git(body, frag_ref, frag_skill, false);
        }
    }
}

// ---------------------------------------------------------------------------
// Subpaths stay inside the repository
// ---------------------------------------------------------------------------

/// A path component that stays where it is: not empty, `.` or `..`, and
/// without a separator.
pub open spec fn is_inner_part(s: Seq<char>) -> bool {
    &&& s.len() > 0
    &&& s != "."@
    &&& s != ".."@
    &&& !contains_char(s, '/')
    &&& !contains_char(s, '\\')
}

/// A subpath made of one or more inner components joined by `/`, so it
/// names a directory inside the repository.
pub open spec fn stays_inside(p: Seq<char>) -> bool {
    exists|parts: Seq<Seq<char>>|
        #![trigger join_with(parts, '/')]
        parts.len() > 0 && p == join_with(parts, '/') && forall|i: int|
            0 <= i < parts.len() ==> is_inner_part(#[trigger] parts[i])
}

proof fn lemma_sanitized_subpath_stays_inside(raw: Seq<char>)
    ensures
        sanitize_subpath(raw) matches Ok(Some(p)) ==> stays_inside(p),
{
    let t = trim_class(raw, CharClass::Exactly('/'));
    if t.len() > 0 {
        let cls = CharClass::Either('/', '\\');
        let segs = split_class(t, cls);
        if !has_dotdot(segs) && keep_parts(segs).len() > 0 {
            let parts = keep_parts(segs);
            crate::text::lemma_split_pieces_outside_class(t, cls);
            lemma_keep_parts_from(segs);
            assert forall|i: int| 0 <= i < parts.len() implies is_inner_part(#[trigger] parts[i]) by {
                let j = choose|j: int| 0 <= j < segs.len() && segs[j] == parts[i];
                assert(segs[j] != ".."@);
                if contains_char(segs[j], '/') {
                    let m = choose|m: int| 0 <= m < segs[j].len() && segs[j][m] == '/';
                    assert(!crate::text::in_class(cls, segs[j][m]));
                }
                if contains_char(segs[j], '\\') {
                    let m = choose|m: int| 0 <= m < segs[j].len() && segs[j][m] == '\\';
                    assert(!crate::text::in_class(cls, segs[j][m]));
                }
            }
            assert(sanitize_subpath(raw) == Ok::<Option<Seq<char>>, SourceErrorSpec>(
                Some(join_with(parts, '/')),
            ));
        }
    }
}

proof fn lemma_subpath_from_stays_inside(segs: Seq<Seq<char>>, from: int)
    ensures
        subpath_from(segs, from) matches Ok(Some(p)) ==> stays_inside(p),
{
    if segs.len() > from {
        lemma_sanitized_subpath_stays_inside(join_with(segs.subrange(from, segs.len() as int), '/'));
    }
}

proof fn lemma_parse_url_subpath(body: Seq<char>, frag_ref: Option<Seq<char>>, frag_skill: Option<Seq<char>>)
    ensures
        parse_url(body, frag_ref, frag_skill) matches Ok(SourceSpec::Git { subpath: Some(p), .. })
            ==> stays_inside(p),
{
    let p = find_pattern(body, "://"@);
    if p >= 0 {
        let rest = strip_prefix_or_self(body.subrange(p + 3, body.len() as int), "git@"@);
        let sl = find_char(rest, '/');
        if sl >= 0 {
            let path = rest.subrange(sl + 1, rest.len() as int);
            let segs = nonempty_pieces(path, '/');
            let m = gitlab_tree_marker(segs);
            lemma_subpath_from_stays_inside(segs, m + 3);
            lemma_subpath_from_stays_inside(segs, 4);
            lemma_subpath_from_stays_inside(segs, 2);
        }
    }
}

proof fn lemma_shorthand_subpath(
    body: Seq<char>,
    frag_ref: Option<Seq<char>>,
    frag_skill: Option<Seq<char>>,
    prefer_registry: bool,
)
    ensures
        parse_shorthand(body, frag_ref, frag_skill, prefer_registry) matches Ok(
            SourceSpec::Git { subpath: Some(p), .. },
        ) ==> stays_inside(p),
{
    let segs = nonempty_pieces(trim_class(body, CharClass::Exactly('/')), '/');
    lemma_subpath_from_stays_inside(segs, 2);
}

/// A git source never points outside its repository: every subpath that
/// parsing produces is one or more components joined by `/`, none of them
/// empty, `.` or `..`, and none holding a separator.
pub proof fn law_git_subpaths_stay_inside(
    input: Seq<char>,
    cwd: Seq<char>,
    home: Option<Seq<char>>,
    prefer_registry: bool,
)
    ensures
        parse_spec(input, cwd, home, prefer_registry) matches Ok(
            SourceSpec::Git { subpath: Some(p), .. },
        ) ==> stays_inside(p),
    decreases input.len(),
{
    let raw = trim(input);
    if raw.len() > 0 && !(exists|i: int| 0 <= i < raw.len() && is_control(#[trigger] raw[i]))
        && local_path(raw, cwd, home) is None {
        let (body, frag_ref, frag_skill) = split_fragment(raw);
        if starts_with(body, "github:"@) {
            let next = rejoin(body.subrange(7, body.len() as int), frag_ref, frag_skill);
            lemma_rejoin_shorter(input);
            law_git_subpaths_stay_inside(next, cwd, home, false);
        } else if starts_with(body, "gitlab:"@) {
            let url = rejoin("https://gitlab.com/"@ + body.subrange(7, body.len() as int), frag_ref, frag_skill);
            let (b2, r2, s2) = split_fragment(trim(url));
            lemma_parse_url_subpath(b2, r2, s2);
        } else if starts_with(body, "git@"@) && find_char(body.subrange(4, body.len() as int), ':') >= 0 {
        } else if is_url_body(body) {
            lemma_parse_url_subpath(body, frag_ref, frag_skill);
        } else {
            lemma_shorthand_subpath(body, frag_ref, frag_skill, prefer_registry);
        }
    }
}

} // verus!
