//! The `grok skill` command's arguments and the rules behind its output:
//! which scopes a command looks at, which skills an update considers, and
//! how results and failures are worded.

use vstd::prelude::*;
use crate::skill_install::{InstallAction, SkillInstallError};
use crate::skill_lock::SkillLock;
use crate::skill_registry::{RegistryError, RegistryErrorView, RegistrySkill};
use crate::skill_scope::{parse_scope_spec, SkillScopeKind, SkillScopeTarget};
use crate::skill_source::{kind_spec, opt_str_view, SkillSource, SourceSpec};
use crate::skill_validate::{normalize_name, normalize_spec};
use crate::sorting::views_of;
use crate::text::{
    append_chars, chars_of, decimal, lemma_views_push, decimal_chars, join_exec, join_with, push_str_chars,
    slice_chars, split_class, split_class_exec, string_of, views, CharClass,
};

verus! {

/// Default number of search results shown without `--limit`.
pub const DEFAULT_SEARCH_LIMIT: usize = 20;

/// How many lines of a `SKILL.md` the `info` preview shows.
pub const PREVIEW_LINES: usize = 20;

/// The arguments of `grok skill`.
#[derive(Debug, Clone)]
pub struct SkillArgs {
    pub command: SkillCommand,
}

/// The subcommands of `grok skill`.
#[derive(Debug, Clone)]
pub enum SkillCommand {
    /// Search the skill marketplace.
    Search { query: Vec<String>, limit: usize, owner: Option<String>, json: bool },
    /// Show a marketplace skill's details without installing it.
    Info { source: String, json: bool },
    /// Install a skill from the marketplace, a repository, or a local path.
    Install {
        source: String,
        scope: String,
        only: Option<String>,
        force: bool,
        dry_run: bool,
        json: bool,
    },
    /// List installed skills.
    List { scope: Option<String>, json: bool },
    /// Update installed skill(s) from their recorded sources.
    Update { name: Option<String>, scope: Option<String>, force: bool, dry_run: bool, json: bool },
    /// Remove an installed skill.
    Remove { name: String, scope: Option<String>, keep_files: bool, json: bool },
}

/// The query of a search: its words joined by single spaces.
pub fn search_query(words: &Vec<String>) -> (r: String)
    ensures
        r@ == join_with(views_of(words@), ' '),
{
    let mut parts: Vec<Vec<char>> = Vec::new();
    let mut i: usize = 0;
    while i < words.len()
        invariant
            i <= words@.len(),
            views(parts@) == views_of(words@).subrange(0, i as int),
        decreases words@.len() - i,
    {
        let ghost before = parts@;
        let w = chars_of(words[i].as_str());
        parts.push(w);
        proof {
            assert(parts@ == before.push(w));
            lemma_views_push(before, w);
            assert(views_of(words@)[i as int] == words@[i as int]@);
            assert(views(parts@) =~= views_of(words@).subrange(0, i + 1));
        }
        i = i + 1;
    }
    proof {
        assert(views_of(words@).subrange(0, words@.len() as int) =~= views_of(words@));
    }
    string_of(&join_exec(&parts, ' '))
}

// ---------------------------------------------------------------------------
// Scopes
// ---------------------------------------------------------------------------

/// Where the machine's directories are, as far as scopes need to know.
pub struct ScopeContext {
    /// The grok home directory, which holds the user scope.
    pub grok_home: String,
    /// The working directory.
    pub cwd: String,
    /// The root of the repository that contains `cwd`, when there is one.
    pub repo_root: Option<String>,
}

pub open spec fn target_matches(t: SkillScopeTarget, kind: SkillScopeKind, ctx: ScopeContext) -> bool {
    &&& t.spec_kind() == kind
    &&& t.spec_root() == match kind {
        SkillScopeKind::User => ctx.grok_home@,
        SkillScopeKind::Project => crate::paths::path_join(
            match ctx.repo_root {
                Some(r) => r@,
                None => ctx.cwd@,
            },
            ".grok"@,
        ),
    }
}

/// The install target of a scope kind.
pub fn target_for(kind: SkillScopeKind, ctx: &ScopeContext) -> (r: SkillScopeTarget)
    ensures
        target_matches(r, kind, *ctx),
{
    match kind {
        SkillScopeKind::User => SkillScopeTarget::user(ctx.grok_home.as_str()),
        SkillScopeKind::Project => {
            let repo = match &ctx.repo_root {
                Some(r) => Some(r.as_str()),
                None => None,
            };
            SkillScopeTarget::project(ctx.cwd.as_str(), repo)
        },
    }
}

/// The message for a `--scope` value that names no scope.
pub open spec fn unknown_scope_message(scope: Seq<char>) -> Seq<char> {
    "unknown scope `"@ + scope + "` (expected `user` or `project`)"@
}

fn unknown_scope(scope: &str) -> (r: String)
    ensures
        r@ == unknown_scope_message(scope@),
{
    let mut v = chars_of("unknown scope `");
    push_str_chars(&mut v, scope);
    push_str_chars(&mut v, "` (expected `user` or `project`)");
    string_of(&v)
}

/// Resolve a `--scope` value into a concrete install target.
pub fn resolve_scope(scope: &str, ctx: &ScopeContext) -> (r: Result<SkillScopeTarget, String>)
    ensures
        match parse_scope_spec(scope@) {
            Some(kind) => r matches Ok(t) && target_matches(t, kind, *ctx),
            None => r matches Err(m) && m@ == unknown_scope_message(scope@),
        },
{
    match SkillScopeKind::parse(scope) {
        Some(kind) => Ok(target_for(kind, ctx)),
        None => Err(unknown_scope(scope)),
    }
}

/// Scopes to inspect for a read or multi-scope command: the one `--scope`
/// names, or without it both, user first, so a skill is never silently
/// missing from output just because it lives in the other one.
pub fn scopes_to_inspect(scope: Option<&str>, ctx: &ScopeContext) -> (r: Result<Vec<SkillScopeTarget>, String>)
    ensures
        match scope {
            Some(s) => match parse_scope_spec(s@) {
                Some(kind) => r matches Ok(v) && v@.len() == 1 && target_matches(v@[0], kind, *ctx),
                None => r matches Err(m) && m@ == unknown_scope_message(s@),
            },
            None => r matches Ok(v) && v@.len() == 2 && target_matches(
                v@[0],
                SkillScopeKind::User,
                *ctx,
            ) && target_matches(v@[1], SkillScopeKind::Project, *ctx),
        },
{
    match scope {
        Some(value) => {
            let t = resolve_scope(value, ctx)?;
            let mut v: Vec<SkillScopeTarget> = Vec::new();
            v.push(t);
            Ok(v)
        },
        None => {
            let mut v: Vec<SkillScopeTarget> = Vec::new();
            v.push(target_for(SkillScopeKind::User, ctx));
            v.push(target_for(SkillScopeKind::Project, ctx));
            Ok(v)
        },
    }
}

/// How a scope filter reads in a message.
pub open spec fn scope_label_text(scope: Option<&str>) -> Seq<char> {
    match scope {
        Some(s) => "the "@ + s@ + " scope"@,
        None => "any scope"@,
    }
}

/// How a scope filter reads in a message.
pub fn scope_label(scope: Option<&str>) -> (r: String)
    ensures
        r@ == scope_label_text(scope),
{
    match scope {
        Some(s) => {
            let mut v = chars_of("the ");
            push_str_chars(&mut v, s);
            push_str_chars(&mut v, " scope");
            string_of(&v)
        },
        None => "any scope".to_owned(),
    }
}

// ---------------------------------------------------------------------------
// Source information
// ---------------------------------------------------------------------------

/// How many characters of a content hash `info` shows.
pub const INFO_HASH_CHARS: usize = 12;

/// How many file paths `info` lists before summarizing the rest.
pub const INFO_FILES_SHOWN: usize = 10;

/// What `grok skill info` shows of a parsed source before anything is
/// fetched: its kind, the registry id of a registry source, and where a git
/// or local source comes from.
#[derive(Debug, Clone)]
pub struct SourceInfo {
    pub kind: String,
    pub registry_id: Option<String>,
    pub from: Option<String>,
    pub git_ref: Option<String>,
    pub subpath: Option<String>,
}

fn copy_opt(o: &Option<String>) -> (r: Option<String>)
    ensures
        opt_str_view(r) == opt_str_view(*o),
{
    match o {
        Some(v) => Some(v.clone()),
        None => None,
    }
}

/// The information `info` shows of `source` itself.
pub fn source_info(source: &SkillSource) -> (r: SourceInfo)
    ensures
        r.kind@ == kind_spec(source@),
        match source@ {
            SourceSpec::Registry { source: owner, slug } => opt_str_view(r.registry_id) == Some(
                owner.push('/') + slug,
            ) && r.from is None && r.git_ref is None && r.subpath is None,
            SourceSpec::Git { url, git_ref, subpath, .. } => r.registry_id is None && opt_str_view(r.from)
                == Some(url) && opt_str_view(r.git_ref) == git_ref && opt_str_view(r.subpath) == subpath,
            SourceSpec::Local { path } => r.registry_id is None && opt_str_view(r.from) == Some(path)
                && r.git_ref is None && r.subpath is None,
        },
{
    let kind = source.kind().to_owned();
    match source {
        SkillSource::Registry { source: owner, slug } => {
            let mut id = chars_of(owner.as_str());
            id.push('/');
            push_str_chars(&mut id, slug.as_str());
            SourceInfo { kind, registry_id: Some(string_of(&id)), from: None, git_ref: None, subpath: None }
        },
        SkillSource::Git { url, git_ref, subpath, .. } => SourceInfo {
            kind,
            registry_id: None,
            from: Some(url.clone()),
            git_ref: copy_opt(git_ref),
            subpath: copy_opt(subpath),
        },
        SkillSource::Local { path } => SourceInfo {
            kind,
            registry_id: None,
            from: Some(path.clone()),
            git_ref: None,
            subpath: None,
        },
    }
}

/// The start of a content hash that `info` shows: its first
/// `INFO_HASH_CHARS` characters, or all of it when it is shorter.
pub fn hash_prefix(hash: &str) -> (r: String)
    ensures
        r@ == hash@.take(if hash@.len() < INFO_HASH_CHARS { hash@.len() as int } else { INFO_HASH_CHARS as int }),
{
    let v = chars_of(hash);
    let n = if v.len() < INFO_HASH_CHARS { v.len() } else { INFO_HASH_CHARS };
    let r = slice_chars(&v, 0, n);
    proof {
        assert(r@ =~= hash@.take(n as int));
    }
    string_of(&r)
}

/// The file paths `info` lists, the first `INFO_FILES_SHOWN` of them, and
/// how many more there are.
pub fn listed_files(files: &Vec<String>) -> (r: (Vec<String>, usize))
    ensures
        r.0@.len() == if files@.len() < INFO_FILES_SHOWN { files@.len() } else { INFO_FILES_SHOWN as nat },
        forall|i: int| 0 <= i < r.0@.len() ==> #[trigger] r.0@[i]@ == files@[i]@,
        r.1 == files@.len() - r.0@.len(),
{
    let n = if files.len() < INFO_FILES_SHOWN { files.len() } else { INFO_FILES_SHOWN };
    let mut shown: Vec<String> = Vec::new();
    let mut i: usize = 0;
    while i < n
        invariant
            n <= files@.len(),
            i <= n,
            shown@.len() == i,
            forall|j: int| 0 <= j < i ==> #[trigger] shown@[j]@ == files@[j]@,
        decreases n - i,
    {
        shown.push(files[i].clone());
        i = i + 1;
    }
    (shown, files.len() - n)
}

// ---------------------------------------------------------------------------
// Removals
// ---------------------------------------------------------------------------

/// Why a removal over the inspected scopes removed nothing.
#[derive(Debug)]
pub enum RemoveFailure {
    /// A scope held the skill but removing it failed: the last such failure.
    Failed(SkillInstallError),
    /// No inspected scope holds the skill: the message to show.
    NotInstalled(String),
}

/// A removal over the inspected scopes in progress: each scope the skill was
/// removed from, with the path it had there, and the last failure other than
/// the skill not being installed in a scope.
#[derive(Debug)]
pub struct RemoveRun {
    pub removed: Vec<(String, String)>,
    pub last_error: Option<SkillInstallError>,
}

impl RemoveRun {
    /// A removal that has looked at no scope yet.
    pub fn new() -> (r: RemoveRun)
        ensures
            r.removed@.len() == 0,
            r.last_error is None,
    {
        RemoveRun { removed: Vec::new(), last_error: None }
    }

    /// Take the outcome of removing the skill from scope `scope`: the path it
    /// was removed from, or the error. A scope that does not hold the skill is
    /// skipped; any other error replaces the one kept before.
    pub fn step(&mut self, scope: String, outcome: Result<String, SkillInstallError>)
        ensures
            match outcome {
                Ok(path) => final(self).removed@ == old(self).removed@.push((scope, path))
                    && final(self).last_error == old(self).last_error,
                Err(SkillInstallError::NotInstalled(_)) => *final(self) == *old(self),
                Err(e) => final(self).removed@ == old(self).removed@
                    && final(self).last_error == Some(e),
            },
    {
        match outcome {
            Ok(path) => self.removed.push((scope, path)),
            Err(SkillInstallError::NotInstalled(_)) => {},
            Err(e) => self.last_error = Some(e),
        }
    }

    /// The removal's result for skill `name` under the scope filter `scope`:
    /// every removal when there was one, else the last failure, else the
    /// message that no inspected scope holds the skill.
    pub fn finish(self, name: &str, scope: Option<&str>) -> (r: Result<Vec<(String, String)>, RemoveFailure>)
        ensures
            self.removed@.len() > 0 ==> (r matches Ok(v) && v@ == self.removed@),
            self.removed@.len() == 0 ==> match self.last_error {
                Some(e) => r matches Err(RemoveFailure::Failed(x)) && x == e,
                None => r matches Err(RemoveFailure::NotInstalled(m))
                    && m@ == "`"@ + name@ + "` is not installed in "@ + scope_label_text(scope),
            },
    {
        if self.removed.len() > 0 {
            return Ok(self.removed);
        }
        match self.last_error {
            Some(e) => Err(RemoveFailure::Failed(e)),
            None => {
                let mut v = chars_of("`");
                push_str_chars(&mut v, name);
                push_str_chars(&mut v, "` is not installed in ");
                let label = scope_label(scope);
                push_str_chars(&mut v, label.as_str());
                Err(RemoveFailure::NotInstalled(string_of(&v)))
            },
        }
    }
}

// ---------------------------------------------------------------------------
// Updates
// ---------------------------------------------------------------------------

/// The skills of `lock` an update considers: with a name, that name
/// normalized if the lock tracks it (lockfile keys are normalized slugs);
/// without one, every tracked skill in name order.
pub fn names_to_update(lock: &SkillLock, name: Option<&str>) -> (r: Vec<String>)
    requires
        lock.wf(),
    ensures
        match name {
            Some(n) => if lock.skills@.contains_key(normalize_spec(n@)) {
                r@.len() == 1 && r@[0]@ == normalize_spec(n@)
            } else {
                r@.len() == 0
            },
            None => r@.len() == lock.skills.pairs().len() && forall|i: int|
                0 <= i < r@.len() ==> #[trigger] r@[i]@ == lock.skills.pairs()[i].0@,
        },
{
    match name {
        Some(n) => {
            let wanted = normalize_name(n);
            let mut r: Vec<String> = Vec::new();
            if lock.contains(wanted.as_str()) {
                r.push(wanted);
            }
            r
        },
        None => lock.skills.keys(),
    }
}

/// How many of the actions changed something.
pub open spec fn changed_count(actions: Seq<InstallAction>) -> nat
    decreases actions.len(),
{
    if actions.len() == 0 {
        0
    } else {
        changed_count(actions.drop_last()) + if actions.last() == InstallAction::Unchanged {
            0nat
        } else {
            1nat
        }
    }
}

/// The number of updates that changed a skill.
pub fn count_changed(actions: &Vec<InstallAction>) -> (r: usize)
    ensures
        r == changed_count(actions@),
{
    let mut n: usize = 0;
    let mut i: usize = 0;
    while i < actions.len()
        invariant
            i <= actions@.len(),
            n == changed_count(actions@.subrange(0, i as int)),
            n <= i,
        decreases actions@.len() - i,
    {
        proof {
            assert(actions@.subrange(0, i + 1).drop_last() =~= actions@.subrange(0, i as int));
        }
        match actions[i] {
            InstallAction::Unchanged => {},
            _ => {
                n = n + 1;
            },
        }
        i = i + 1;
    }
    proof {
        assert(actions@.subrange(0, actions@.len() as int) =~= actions@);
    }
    n
}

/// The closing line of an update: how many of the skills considered changed.
pub fn update_summary(changed: usize, considered: usize, dry_run: bool) -> (r: String)
    ensures
        r@ == seq!['\n'] + decimal(changed as nat) + " of "@ + decimal(considered as nat)
            + " skill(s) "@ + (if dry_run {
            "would change"@
        } else {
            "changed"@
        }) + "."@,
{
    let mut v: Vec<char> = Vec::new();
    v.push('\n');
    let c = decimal_chars(changed as u64);
    append_chars(&mut v, &c);
    push_str_chars(&mut v, " of ");
    let k = decimal_chars(considered as u64);
    append_chars(&mut v, &k);
    push_str_chars(&mut v, " skill(s) ");
    if dry_run {
        push_str_chars(&mut v, "would change");
    } else {
        push_str_chars(&mut v, "changed");
    }
    push_str_chars(&mut v, ".");
    string_of(&v)
}

/// The failure of an update of skill `name` that no scope tracks.
pub open spec fn not_tracked_text(name: Seq<char>) -> Seq<char> {
    "`"@ + name + "` is not tracked as a marketplace install; run `grok skill list` to see what is"@
}

/// The failure of an update of skill `name` that no scope tracks.
pub fn not_tracked_message(name: &str) -> (r: String)
    ensures
        r@ == not_tracked_text(name@),
{
    let mut v = chars_of("`");
    push_str_chars(&mut v, name);
    push_str_chars(&mut v, "` is not tracked as a marketplace install; run `grok skill list` to see what is");
    string_of(&v)
}

/// How an update run ends once every tracked skill it considered was tried.
#[derive(Debug, Clone)]
pub enum UpdateEnd {
    /// Nothing is tracked and no skill was named: there is nothing to do,
    /// which is no failure.
    NothingToUpdate,
    /// The named skill is tracked in no scope: the run fails with this message.
    NotTracked(String),
    /// Some updates failed: after the report the run fails with this message.
    Failed(String),
    /// Every skill considered was updated.
    Done,
}

/// The end of an update run that was asked for skill `name` (every tracked
/// skill when `None`), considered `considered` skills and saw `failed` of
/// them fail.
pub fn update_end(name: Option<&str>, considered: usize, failed: usize) -> (r: UpdateEnd)
    ensures
        considered == 0 && name is None ==> r is NothingToUpdate,
        considered == 0 && name is Some ==> (r matches UpdateEnd::NotTracked(m)
            && m@ == not_tracked_text(name->Some_0@)),
        considered > 0 && failed > 0 ==> (r matches UpdateEnd::Failed(m)
            && m@ == decimal(failed as nat) + " skill(s) failed to update"@),
        considered > 0 && failed == 0 ==> r is Done,
{
    if considered == 0 {
        match name {
            Some(one) => UpdateEnd::NotTracked(not_tracked_message(one)),
            None => UpdateEnd::NothingToUpdate,
        }
    } else if failed > 0 {
        let mut v = decimal_chars(failed as u64);
        push_str_chars(&mut v, " skill(s) failed to update");
        UpdateEnd::Failed(string_of(&v))
    } else {
        UpdateEnd::Done
    }
}

// ---------------------------------------------------------------------------
// Output text
// ---------------------------------------------------------------------------

/// `v` cut to `max` characters, the last kept one replaced by `…` when
/// anything was cut.
pub open spec fn truncated(v: Seq<char>, max: usize) -> Seq<char> {
    if v.len() <= max {
        v
    } else {
        v.take(if max == 0 {
            0
        } else {
            max - 1
        }) + seq!['…']
    }
}

/// Cut a value to a column of `max` characters.
pub fn truncate(value: &str, max: usize) -> (r: String)
    ensures
        r@ == truncated(value@, max),
{
    let v = chars_of(value);
    if v.len() <= max {
        return string_of(&v);
    }
    let keep: usize = if max == 0 {
        0
    } else {
        max - 1
    };
    let mut kept = slice_chars(&v, 0, keep);
    kept.push('…');
    string_of(&kept)
}

/// `s` without one trailing carriage return.
pub open spec fn strip_cr(s: Seq<char>) -> Seq<char> {
    if s.len() > 0 && s.last() == '\r' {
        s.drop_last()
    } else {
        s
    }
}

/// `str::lines`: the pieces between newlines, each without a carriage
/// return before its newline; a final newline ends the last line rather than
/// starting an empty one.
pub open spec fn text_lines(s: Seq<char>) -> Seq<Seq<char>> {
    let parts = split_class(s, CharClass::Exactly('\n'));
    let n = parts.len();
    if n == 0 {
        Seq::empty()
    } else {
        let body = parts.take(n - 1).map_values(|p: Seq<char>| strip_cr(p));
        if parts[n - 1].len() > 0 {
            body.push(parts[n - 1])
        } else {
            body
        }
    }
}

/// The first lines of a `SKILL.md`, joined by newlines.
pub open spec fn preview_text(contents: Seq<char>) -> Seq<char> {
    let lines = text_lines(contents);
    join_with(
        if lines.len() > PREVIEW_LINES {
            lines.take(PREVIEW_LINES as int)
        } else {
            lines
        },
        '\n',
    )
}

fn strip_cr_exec(v: &Vec<char>) -> (r: Vec<char>)
    ensures
        r@ == strip_cr(v@),
{
    if v.len() > 0 && v[v.len() - 1] == '\r' {
        slice_chars(v, 0, v.len() - 1)
    } else {
        slice_chars(v, 0, v.len())
    }
}

/// First few lines of a `SKILL.md`, for the `info` preview.
pub fn preview(contents: &str) -> (r: String)
    ensures
        r@ == preview_text(contents@),
{
    let parts = split_class_exec(&chars_of(contents), &CharClass::Exactly('\n'));
    let ghost pv = split_class(contents@, CharClass::Exactly('\n'));
    let n = parts.len();
    let mut lines: Vec<Vec<char>> = Vec::new();
    if n > 0 {
        let mut i: usize = 0;
        while i + 1 < n
            invariant
                n == parts@.len(),
                n > 0,
                i <= n - 1,
                views(parts@) == pv,
                views(lines@) == pv.take(i as int).map_values(|p: Seq<char>| strip_cr(p)),
            decreases n - i,
        {
            let ghost before = lines@;
            let line = strip_cr_exec(&parts[i]);
            lines.push(line);
            proof {
                assert(lines@ == before.push(line));
                lemma_views_push(before, line);
                assert(pv[i as int] == parts@[i as int]@);
                assert(pv.take(i + 1).map_values(|p: Seq<char>| strip_cr(p)) =~= pv.take(
                    i as int,
                ).map_values(|p: Seq<char>| strip_cr(p)).push(strip_cr(pv[i as int])));
                assert(views(lines@) =~= pv.take(i + 1).map_values(|p: Seq<char>| strip_cr(p)));
            }
            i = i + 1;
        }
        if parts[n - 1].len() > 0 {
            lines.push(slice_chars(&parts[n - 1], 0, parts[n - 1].len()));
            proof {
                assert(pv[n - 1] == parts@[n - 1]@);
                assert(parts@[n - 1]@.subrange(0, parts@[n - 1]@.len() as int) =~= parts@[n - 1]@);
            }
        }
        proof {
            assert(pv[n - 1] == parts@[n - 1]@);
            assert(views(lines@) =~= text_lines(contents@));
        }
    }
    let mut shown: Vec<Vec<char>> = Vec::new();
    let mut k: usize = 0;
    while k < lines.len() && k < PREVIEW_LINES
        invariant
            k <= lines@.len(),
            k <= PREVIEW_LINES,
            views(shown@) == views(lines@).take(k as int),
        decreases lines@.len() - k,
    {
        let ghost before = shown@;
        let line = slice_chars(&lines[k], 0, lines[k].len());
        shown.push(line);
        proof {
            assert(shown@ == before.push(line));
            lemma_views_push(before, line);
            assert(lines@[k as int]@.subrange(0, lines@[k as int]@.len() as int) =~= lines@[k as int]@);
            assert(views(shown@) =~= views(lines@).take(k + 1));
        }
        k = k + 1;
    }
    proof {
        if views(lines@).len() <= PREVIEW_LINES {
            assert(views(lines@).take(k as int) =~= views(lines@));
        }
    }
    string_of(&join_exec(&shown, '\n'))
}

/// The install command to suggest after a search: the first result's, or a
/// placeholder when there are none.
pub fn example_spec(results: &Vec<RegistrySkill>) -> (r: String)
    ensures
        r@ == if results@.len() > 0 {
            results@[0].id@
        } else {
            "<owner>/<repo>/<skill>"@
        },
{
    if results.len() > 0 {
        results[0].install_spec()
    } else {
        "<owner>/<repo>/<skill>".to_owned()
    }
}

/// Where a listed skill came from: `origin: source` for a tracked skill.
pub fn provenance_label(origin: Option<&str>, source: Option<&str>) -> (r: String)
    ensures
        r@ == match (origin, source) {
            (Some(o), Some(s)) => o@ + ": "@ + s@,
            _ => "not installed from the marketplace"@,
        },
{
    match (origin, source) {
        (Some(o), Some(s)) => {
            let mut v = chars_of(o);
            push_str_chars(&mut v, ": ");
            push_str_chars(&mut v, s);
            string_of(&v)
        },
        _ => "not installed from the marketplace".to_owned(),
    }
}

/// The verb reported for an installed skill.
pub fn action_label(action: InstallAction, dry_run: bool) -> (r: &'static str)
    ensures
        r@ == if dry_run {
            "would install"@
        } else {
            action.label()
        },
{
    if dry_run {
        "would install"
    } else {
        action.as_str()
    }
}

/// Advice for a registry failure the user can act on.
pub open spec fn registry_advice_text(e: RegistryErrorView) -> Seq<char> {
    match e {
        RegistryErrorView::Transport(detail) => "could not reach the skill registry ("@ + detail
            + "). Check your network, or set GROK_SKILLS_REGISTRY_URL to a reachable mirror."@,
        RegistryErrorView::Status { status, url } => if status >= 500 {
            "the skill registry is unavailable right now (HTTP "@ + decimal(status as nat)
                + "). Try again shortly."@
        } else {
            e.message()
        },
        _ => e.message(),
    }
}

/// Turn a registry failure into advice the user can act on.
pub fn describe_registry_error(error: &RegistryError) -> (r: String)
    ensures
        r@ == registry_advice_text(error@),
{
    match error {
        RegistryError::Transport(detail) => {
            let mut v = chars_of("could not reach the skill registry (");
            push_str_chars(&mut v, detail.as_str());
            push_str_chars(
                &mut v,
                "). Check your network, or set GROK_SKILLS_REGISTRY_URL to a reachable mirror.",
            );
            string_of(&v)
        },
        RegistryError::Status { status, url } => {
            if *status >= 500 {
                let mut v = chars_of("the skill registry is unavailable right now (HTTP ");
                let d = decimal_chars(*status as u64);
                append_chars(&mut v, &d);
                push_str_chars(&mut v, "). Try again shortly.");
                string_of(&v)
            } else {
                error.message()
            }
        },
        _ => error.message(),
    }
}

/// Turn an install failure into advice the user can act on.
pub fn describe_install_error(error: &SkillInstallError) -> (r: String)
    ensures
        r@ == match error {
            SkillInstallError::Registry(inner) => registry_advice_text(inner@),
            _ => error.text(),
        },
{
    match error {
        SkillInstallError::Registry(inner) => describe_registry_error(inner),
        _ => error.message(),
    }
}

/// The widest of the names, in characters.
pub open spec fn widest(names: Seq<String>) -> nat
    decreases names.len(),
{
    if names.len() == 0 {
        0
    } else {
        let w = widest(names.drop_last());
        if names.last()@.len() > w {
            names.last()@.len()
        } else {
            w
        }
    }
}

/// The width of a name column: the widest name's character count, but no
/// more than `cap`.
pub fn column_width(names: &Vec<String>, cap: usize) -> (r: usize)
    ensures
        r == if widest(names@) > cap {
            cap as nat
        } else {
            widest(names@)
        },
{
    let mut w: usize = 0;
    let mut i: usize = 0;
    while i < names.len()
        invariant
            i <= names@.len(),
            w == widest(names@.subrange(0, i as int)),
        decreases names@.len() - i,
    {
        proof {
            assert(names@.subrange(0, i + 1).drop_last() =~= names@.subrange(0, i as int));
            assert(names@.subrange(0, i + 1).last() == names@[i as int]);
        }
        let n = chars_of(names[i].as_str()).len();
        if n > w {
            w = n;
        }
        i = i + 1;
    }
    proof {
        assert(names@.subrange(0, names@.len() as int) =~= names@);
    }
    if w > cap {
        cap
    } else {
        w
    }
}

} // verus!
