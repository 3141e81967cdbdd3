//! The rules of installing, updating, and removing marketplace skills.
//!
//! A skill install is a directory copy plus a lockfile record. Three source
//! kinds feed it — the skills.sh registry, a git repository, and a local
//! directory — and all three converge on the same staged tree before anything
//! is written into the destination scope:
//!
//! 1. Materialize candidate skills into a staging area (download, clone, or scan).
//! 2. Validate each candidate: `SKILL.md` present, frontmatter parses, name is a
//!    safe slug, destination stays inside the scope.
//! 3. Copy into `<scope>/skills/<name>/` and record provenance in the lockfile.
//!
//! This module decides every step: which candidates are installed, whether an
//! existing skill may be replaced, which files of a tree are copied and within
//! what limits, and what the lockfile records. The caller performs the file
//! operations those decisions call for.

use vstd::prelude::*;
use crate::order::{eq_str, lex_less_str, lex_lt};
use crate::skill_lock::{entry_path, now_timestamp, upsert_map, SkillLock, SkillLockEntry, SkillLockError, SkillOrigin};
use crate::skill_registry::{
    is_safe_relative_path, safe_relative_path, RegistryError, RegistryErrorView, RegistrySkillFiles,
};
use crate::skill_scope::SkillScopeTarget;
use crate::skill_source::{identity_spec, opt_ref_view, opt_str_view, SkillSource, SkillSourceError, SourceSpec};
use crate::skill_validate::{join_within, join_within_spec, normalize_name, normalize_spec, valid_name_spec};
use crate::sorting::{lemma_key_pos_at, sort_by_key, sort_seq, sort_strings, views_of};
use crate::text::{chars_of, push_str_chars, replace_char, replace_char_exec, string_of};

verus! {

/// Cap on files copied from a git or local source, matching the registry cap.
pub const MAX_SKILL_FILES: usize = 2000;

/// Cap on total bytes copied from a git or local source.
pub const MAX_SKILL_BYTES: u64 = 33554432;

/// How deep to search a source tree for `SKILL.md` files.
pub const MAX_SCAN_DEPTH: usize = 8;

/// Errors from installing, updating, or removing a skill.
#[derive(Debug, Clone, PartialEq, Eq)]
pub enum SkillInstallError {
    Source(SkillSourceError),
    Registry(RegistryError),
    Lock(SkillLockError),
    NoSkillsFound(String),
    InvalidSkill { name: String, reason: String },
    AlreadyInstalled(String),
    LocallyModified(String),
    NotInstalled(String),
    NotTracked(String),
    SkillNotInSource { spec: String, skill: String },
    TooLarge { limit: u64 },
    Git(String),
    /// A filesystem operation failed at `path`; `message` is the operating
    /// system's account of why.
    Io { path: String, message: String },
}

impl SkillInstallError {
    /// The sentence shown to the user for this error.
    pub open spec fn text(&self) -> Seq<char> {
        match self {
            SkillInstallError::Source(e) => e@.message(),
            SkillInstallError::Registry(e) => e@.message(),
            SkillInstallError::Lock(e) => e.text(),
            SkillInstallError::NoSkillsFound(s) => "no SKILL.md found in "@ + s@,
            SkillInstallError::InvalidSkill { name, reason } => "skill `"@ + name@
                + "` is not valid: "@ + reason@,
            SkillInstallError::AlreadyInstalled(s) => "skill `"@ + s@
                + "` is already installed; pass --force to overwrite it or run `grok skill update "@
                + s@ + "`"@,
            SkillInstallError::LocallyModified(s) => "skill `"@ + s@
                + "` has local edits; pass --force to discard them or copy them out before updating"@,
            SkillInstallError::NotInstalled(s) => "skill `"@ + s@ + "` is not installed in this scope"@,
            SkillInstallError::NotTracked(s) => "skill `"@ + s@
                + "` was not installed from the marketplace, so it cannot be updated"@,
            SkillInstallError::SkillNotInSource { spec, skill } => "source `"@ + spec@
                + "` does not contain a skill named `"@ + skill@ + "`"@,
            SkillInstallError::TooLarge { limit } => "source exceeds the install size limit ("@
                + crate::text::decimal(*limit as nat) + " bytes)"@,
            SkillInstallError::Git(s) => "git operation failed: "@ + s@,
            SkillInstallError::Io { path, message } => "filesystem error at "@ + path@ + ": "@
                + message@,
        }
    }

    /// The sentence shown to the user for this error.
    pub fn message(&self) -> (r: String)
        ensures
            r@ == self.text(),
    {
        match self {
            SkillInstallError::Source(e) => e.message(),
            SkillInstallError::Registry(e) => e.message(),
            SkillInstallError::Lock(e) => e.message(),
            _ => {
                let mut v: Vec<char> = Vec::new();
                match self {
                    SkillInstallError::NoSkillsFound(s) => {
                        push_str_chars(&mut v, "no SKILL.md found in ");
                        push_str_chars(&mut v, s.as_str());
                    },
                    SkillInstallError::InvalidSkill { name, reason } => {
                        push_str_chars(&mut v, "skill `");
                        push_str_chars(&mut v, name.as_str());
                        push_str_chars(&mut v, "` is not valid: ");
                        push_str_chars(&mut v, reason.as_str());
                    },
                    SkillInstallError::AlreadyInstalled(s) => {
                        push_str_chars(&mut v, "skill `");
                        push_str_chars(&mut v, s.as_str());
                        push_str_chars(
                            &mut v,
                            "` is already installed; pass --force to overwrite it or run `grok skill update ",
                        );
                        push_str_chars(&mut v, s.as_str());
                        push_str_chars(&mut v, "`");
                    },
                    SkillInstallError::LocallyModified(s) => {
                        push_str_chars(&mut v, "skill `");
                        push_str_chars(&mut v, s.as_str());
                        push_str_chars(
                            &mut v,
                            "` has local edits; pass --force to discard them or copy them out before updating",
                        );
                    },
                    SkillInstallError::NotInstalled(s) => {
                        push_str_chars(&mut v, "skill `");
                        push_str_chars(&mut v, s.as_str());
                        push_str_chars(&mut v, "` is not installed in this scope");
                    },
                    SkillInstallError::NotTracked(s) => {
                        push_str_chars(&mut v, "skill `");
                        push_str_chars(&mut v, s.as_str());
                        push_str_chars(
                            &mut v,
                            "` was not installed from the marketplace, so it cannot be updated",
                        );
                    },
                    SkillInstallError::SkillNotInSource { spec, skill } => {
                        push_str_chars(&mut v, "source `");
                        push_str_chars(&mut v, spec.as_str());
                        push_str_chars(&mut v, "` does not contain a skill named `");
                        push_str_chars(&mut v, skill.as_str());
                        push_str_chars(&mut v, "`");
                    },
                    SkillInstallError::TooLarge { limit } => {
                        push_str_chars(&mut v, "source exceeds the install size limit (");
                        let d = crate::text::decimal_chars(*limit);
                        crate::text::append_chars(&mut v, &d);
                        push_str_chars(&mut v, " bytes)");
                    },
                    SkillInstallError::Git(s) => {
                        push_str_chars(&mut v, "git operation failed: ");
                        push_str_chars(&mut v, s.as_str());
                    },
                    SkillInstallError::Io { path, message } => {
                        push_str_chars(&mut v, "filesystem error at ");
                        push_str_chars(&mut v, path.as_str());
                        push_str_chars(&mut v, ": ");
                        push_str_chars(&mut v, message.as_str());
                    },
                    _ => {},
                }
                string_of(&v)
            },
        }
    }
}

impl From<SkillSourceError> for SkillInstallError {
    fn from(e: SkillSourceError) -> (r: SkillInstallError) {
        SkillInstallError::Source(e)
    }
}

impl vstd::std_specs::convert::FromSpecImpl<SkillSourceError> for SkillInstallError {
    open spec fn obeys_from_spec() -> bool {
        true
    }

    open spec fn from_spec(v: SkillSourceError) -> SkillInstallError {
        SkillInstallError::Source(v)
    }
}

impl From<RegistryError> for SkillInstallError {
    fn from(e: RegistryError) -> (r: SkillInstallError) {
        SkillInstallError::Registry(e)
    }
}

impl vstd::std_specs::convert::FromSpecImpl<RegistryError> for SkillInstallError {
    open spec fn obeys_from_spec() -> bool {
        true
    }

    open spec fn from_spec(v: RegistryError) -> SkillInstallError {
        SkillInstallError::Registry(v)
    }
}

impl From<SkillLockError> for SkillInstallError {
    fn from(e: SkillLockError) -> (r: SkillInstallError) {
        SkillInstallError::Lock(e)
    }
}

impl vstd::std_specs::convert::FromSpecImpl<SkillLockError> for SkillInstallError {
    open spec fn obeys_from_spec() -> bool {
        true
    }

    open spec fn from_spec(v: SkillLockError) -> SkillInstallError {
        SkillInstallError::Lock(v)
    }
}

/// What an install or update did to one skill.
#[derive(Debug, Clone, Copy, PartialEq, Eq, Structural)]
pub enum InstallAction {
    /// The skill was newly written into the scope.
    Installed,
    /// The skill was already present and its contents were replaced.
    Updated,
    /// The skill was already present with identical contents.
    Unchanged,
}

impl InstallAction {
    pub open spec fn label(self) -> Seq<char> {
        match self {
            InstallAction::Installed => "installed"@,
            InstallAction::Updated => "updated"@,
            InstallAction::Unchanged => "unchanged"@,
        }
    }

    /// Short lowercase label for display and JSON output.
    pub fn as_str(self) -> (r: &'static str)
        ensures
            r@ == self.label(),
    {
        match self {
            InstallAction::Installed => "installed",
            InstallAction::Updated => "updated",
            InstallAction::Unchanged => "unchanged",
        }
    }
}

/// Outcome of installing or updating a single skill.
#[derive(Debug, Clone)]
pub struct InstalledSkill {
    /// Installed skill name, which is also its slash-command name.
    pub name: String,
    /// Description taken from the skill's frontmatter.
    pub description: String,
    /// Where the skill was written.
    pub path: String,
    /// What happened to it.
    pub action: InstallAction,
    /// Content hash of the installed files.
    pub content_hash: String,
    /// Number of files written.
    pub file_count: usize,
}

/// Options controlling an install.
#[derive(Debug, Clone)]
pub struct InstallOptions {
    /// Overwrite an existing skill, including one with local edits.
    pub force: bool,
    /// Validate and report without writing anything.
    pub dry_run: bool,
    /// Install only the skill with this name from a multi-skill source.
    pub only: Option<String>,
}

impl Default for InstallOptions {
    fn default() -> (r: InstallOptions)
        ensures
            !r.force,
            !r.dry_run,
            r.only is None,
    {
        InstallOptions { force: false, dry_run: false, only: None }
    }
}

/// A skill discovered in a staging directory, ready to be validated and copied.
#[derive(Debug)]
pub struct StagedSkill {
    pub name: String,
    pub description: String,
    pub dir: String,
}

/// Extra provenance a staging step resolved that the source string alone lacks.
#[derive(Debug)]
pub struct Provenance {
    pub origin_override: Option<SkillOrigin>,
    pub commit: Option<String>,
    pub registry_hash: Option<String>,
    pub registry_id: Option<String>,
}

// ---------------------------------------------------------------------------
// Choosing what to install
// ---------------------------------------------------------------------------

/// The candidates named `name`, in order.
pub open spec fn named(s: Seq<StagedSkill>, name: Seq<char>) -> Seq<StagedSkill>
    decreases s.len(),
{
    if s.len() == 0 {
        s
    } else if s.last().name@ == name {
        named(s.drop_last(), name).push(s.last())
    } else {
        named(s.drop_last(), name)
    }
}

/// Keeps the candidates named `name`, in order.
fn keep_named(candidates: Vec<StagedSkill>, name: &str) -> (r: Vec<StagedSkill>)
    ensures
        r@ == named(candidates@, name@),
{
    let ghost orig = candidates@;
    let total = candidates.len();
    assert(orig.len() == total);
    let mut rest = candidates;
    let mut r: Vec<StagedSkill> = Vec::new();
    let mut k: usize = 0;
    while rest.len() > 0
        invariant
            k + rest@.len() == orig.len(),
            orig.len() <= usize::MAX,
            rest@ == orig.subrange(k as int, orig.len() as int),
            r@ == named(orig.subrange(0, k as int), name@),
        decreases rest@.len(),
    {
        let s = rest.remove(0);
        proof {
            let p = orig.subrange(0, k + 1);
            assert(p.drop_last() =~= orig.subrange(0, k as int));
            assert(p.last() == s);
        }
        if eq_str(s.name.as_str(), name) {
            r.push(s);
        }
        k = k + 1;
        proof {
            assert(rest@ =~= orig.subrange(k as int, orig.len() as int));
        }
    }
    proof {
        assert(orig.subrange(0, k as int) =~= orig);
    }
    r
}

/// The skills to install out of `candidates`: all of them, or with `only`
/// the ones whose name is `only` normalized. Selecting nothing is an error
/// that names the source as the user wrote it.
pub fn select_skills(candidates: Vec<StagedSkill>, only: Option<&str>, original_spec: &str) -> (r:
    Result<Vec<StagedSkill>, SkillInstallError>)
    ensures
        match only {
            None => if candidates@.len() == 0 {
                r matches Err(SkillInstallError::NoSkillsFound(spec)) && spec@ == original_spec@
            } else {
                r matches Ok(v) && v@ == candidates@
            },
            Some(o) => if named(candidates@, normalize_spec(o@)).len() == 0 {
                r matches Err(SkillInstallError::SkillNotInSource { spec, skill }) && spec@
                    == original_spec@ && skill@ == normalize_spec(o@)
            } else {
                r matches Ok(v) && v@ == named(candidates@, normalize_spec(o@))
            },
        },
{
    match only {
        None => {
            if candidates.len() == 0 {
                Err(SkillInstallError::NoSkillsFound(original_spec.to_owned()))
            } else {
                Ok(candidates)
            }
        },
        Some(o) => {
            let wanted = normalize_name(o);
            let selected = keep_named(candidates, wanted.as_str());
            if selected.len() == 0 {
                Err(SkillInstallError::SkillNotInSource { spec: original_spec.to_owned(), skill: wanted })
            } else {
                Ok(selected)
            }
        },
    }
}

/// Narrow a git source's skills to the one its `@skill` filter names; a
/// filter that matches nothing is an error naming the repository URL.
pub fn apply_skill_filter(staged: Vec<StagedSkill>, filter: Option<&str>, url: &str) -> (r: Result<
    Vec<StagedSkill>,
    SkillInstallError,
>)
    ensures
        match filter {
            None => r matches Ok(v) && v@ == staged@,
            Some(f) => if named(staged@, normalize_spec(f@)).len() == 0 {
                r matches Err(SkillInstallError::SkillNotInSource { spec, skill }) && spec@ == url@
                    && skill@ == normalize_spec(f@)
            } else {
                r matches Ok(v) && v@ == named(staged@, normalize_spec(f@))
            },
        },
{
    match filter {
        None => Ok(staged),
        Some(f) => {
            let wanted = normalize_name(f);
            let kept = keep_named(staged, wanted.as_str());
            if kept.len() == 0 {
                Err(SkillInstallError::SkillNotInSource { spec: url.to_owned(), skill: wanted })
            } else {
                Ok(kept)
            }
        },
    }
}

// ---------------------------------------------------------------------------
// Deciding how to install one skill
// ---------------------------------------------------------------------------

/// What to do for one staged skill.
#[derive(Debug, Clone, Copy, PartialEq, Eq, Structural)]
pub struct InstallStep {
    /// What the install amounts to.
    pub action: InstallAction,
    /// Whether the files are to be written into the scope.
    pub write: bool,
    /// Whether the lockfile is to record the skill.
    pub record: bool,
}

/// Where a skill named `name` is installed in `scope`, or an error when the
/// name does not resolve to a directory inside the scope's skills directory.
pub fn install_destination(scope: &SkillScopeTarget, name: &str) -> (r: Result<String, SkillInstallError>)
    ensures
        ({
            let n = normalize_spec(name@);
            match r {
                Ok(p) => valid_name_spec(n) && join_within_spec(scope.spec_skills_dir(), n) == Some(
                    p@,
                ),
                Err(e) => (!valid_name_spec(n) || join_within_spec(scope.spec_skills_dir(), n) is None)
                    && (e matches SkillInstallError::InvalidSkill { name: en, reason } && en@ == name@
                    && reason@ == "resolved install path escapes the skills directory"@),
            }
        }),
{
    match scope.skill_dir(name) {
        Some(p) => Ok(p),
        None => Err(
            SkillInstallError::InvalidSkill {
                name: name.to_owned(),
                reason: "resolved install path escapes the skills directory".to_owned(),
            },
        ),
    }
}

/// The decision for installing skill `name` whose staged files hash to
/// `content_hash`, given whether its destination `existed`, what the
/// installed copy hashes to (`None` when it could not be hashed), and the
/// content hash the lockfile recorded for it (`None` when untracked).
pub open spec fn install_decision(
    name: Seq<char>,
    existed: bool,
    installed_hash: Option<Seq<char>>,
    content_hash: Seq<char>,
    tracked_hash: Option<Seq<char>>,
    force: bool,
    dry_run: bool,
) -> Result<InstallStep, Seq<char>> {
    if existed && installed_hash == Some(content_hash) {
        Ok(InstallStep { action: InstallAction::Unchanged, write: false, record: true })
    } else if existed && !force && tracked_hash is None {
        Err("already installed"@)
    } else if existed && !force && installed_hash is Some && installed_hash != tracked_hash {
        Err("locally modified"@)
    } else {
        let action = if existed {
            InstallAction::Updated
        } else {
            InstallAction::Installed
        };
        Ok(InstallStep { action, write: !dry_run, record: !dry_run })
    }
}

/// With `force`, installing never fails. A skill not yet present is
/// installed; one present with other contents is replaced, whether or not the
/// lockfile tracks it and whether or not it was edited; one present with the
/// same contents is left as it is and recorded. Files are written and recorded
/// unless this is a dry run.
pub proof fn law_force_always_installs(
    name: Seq<char>,
    existed: bool,
    installed_hash: Option<Seq<char>>,
    content_hash: Seq<char>,
    tracked_hash: Option<Seq<char>>,
    dry_run: bool,
)
    ensures
        ({
            let d = install_decision(name, existed, installed_hash, content_hash, tracked_hash, true, dry_run);
            &&& d is Ok
            &&& !existed ==> d == Ok::<InstallStep, Seq<char>>(
                InstallStep { action: InstallAction::Installed, write: !dry_run, record: !dry_run },
            )
            &&& existed && installed_hash != Some(content_hash) ==> d == Ok::<InstallStep, Seq<char>>(
                InstallStep { action: InstallAction::Updated, write: !dry_run, record: !dry_run },
            )
            &&& existed && installed_hash == Some(content_hash) ==> d == Ok::<InstallStep, Seq<char>>(
                InstallStep { action: InstallAction::Unchanged, write: false, record: true },
            )
        }),
{
}

/// Without `force`, an install only refuses to replace a skill that is
/// present with other contents, and only in two cases: the lockfile does not
/// track it, or its current contents differ from what the lockfile recorded.
/// A tracked skill whose contents are still what was recorded (or could not be
/// hashed) is updated.
pub proof fn law_refusals_protect_untracked_or_edited_skills(
    name: Seq<char>,
    existed: bool,
    installed_hash: Option<Seq<char>>,
    content_hash: Seq<char>,
    tracked_hash: Option<Seq<char>>,
    dry_run: bool,
)
    ensures
        ({
            let d = install_decision(name, existed, installed_hash, content_hash, tracked_hash, false, dry_run);
            &&& d is Err ==> existed && installed_hash != Some(content_hash) && (tracked_hash is None || (
            installed_hash is Some && installed_hash != tracked_hash))
            &&& (existed && installed_hash != Some(content_hash) && tracked_hash is Some && (installed_hash
                is None || installed_hash == tracked_hash)) ==> d == Ok::<InstallStep, Seq<char>>(
                InstallStep { action: InstallAction::Updated, write: !dry_run, record: !dry_run },
            )
            &&& !existed ==> d is Ok
        }),
{
}

/// Decide how to install skill `name` (see `install_decision`): reinstalling
/// identical contents is a no-op that is still recorded; replacing an
/// untracked skill, or a tracked one with local edits, needs `force`.
pub fn plan_install(
    name: &str,
    existed: bool,
    installed_hash: Option<&str>,
    content_hash: &str,
    lock: &SkillLock,
    options: &InstallOptions,
) -> (r: Result<InstallStep, SkillInstallError>)
    requires
        lock.wf(),
    ensures
        ({
            let recorded = if lock.skills@.contains_key(name@) {
                Some(lock.skills@[name@].content_hash@)
            } else {
                None
            };
            let d = install_decision(
                name@,
                existed,
                opt_ref_view(installed_hash),
                content_hash@,
                recorded,
                options.force,
                options.dry_run,
            );
            match r {
                Ok(step) => d == Ok::<InstallStep, Seq<char>>(step),
                Err(e) => (d == Err::<InstallStep, Seq<char>>("already installed"@)
                    && (e matches SkillInstallError::AlreadyInstalled(n) && n@ == name@)) || (d
                    == Err::<InstallStep, Seq<char>>("locally modified"@)
                    && (e matches SkillInstallError::LocallyModified(n) && n@ == name@)),
            }
        }),
{
    let same = match installed_hash {
        Some(h) => eq_str(h, content_hash),
        None => false,
    };
    if existed && same {
        return Ok(InstallStep { action: InstallAction::Unchanged, write: false, record: true });
    }
    if existed && !options.force {
        match lock.get(name) {
            None => {
                return Err(SkillInstallError::AlreadyInstalled(name.to_owned()));
            },
            Some(entry) => {
                let drifted = match installed_hash {
                    Some(current) => !eq_str(current, entry.content_hash.as_str()),
                    None => false,
                };
                if drifted {
                    return Err(SkillInstallError::LocallyModified(name.to_owned()));
                }
            },
        }
    }
    let action = if existed {
        InstallAction::Updated
    } else {
        InstallAction::Installed
    };
    Ok(InstallStep { action, write: !options.dry_run, record: !options.dry_run })
}

// ---------------------------------------------------------------------------
// Recording provenance
// ---------------------------------------------------------------------------

pub open spec fn source_origin(s: SourceSpec) -> SkillOrigin {
    match s {
        SourceSpec::Registry { .. } => SkillOrigin::Registry,
        SourceSpec::Git { .. } => SkillOrigin::Git,
        SourceSpec::Local { .. } => SkillOrigin::Local,
    }
}

pub open spec fn source_git_ref(s: SourceSpec) -> Option<Seq<char>> {
    match s {
        SourceSpec::Git { git_ref, .. } => git_ref,
        _ => None,
    }
}

/// Whether `e` is the record of an install of `source` (written by the user
/// as `original_spec`) with `provenance` and `content_hash`, made at `now`
/// and first made at `installed_at`.
pub open spec fn is_install_record(
    e: SkillLockEntry,
    original_spec: Seq<char>,
    source: SourceSpec,
    provenance: Provenance,
    content_hash: Seq<char>,
    installed_at: Seq<char>,
    now: Seq<char>,
) -> bool {
    &&& e.source@ == original_spec
    &&& e.source_id@ == identity_spec(source)
    &&& e.origin == match provenance.origin_override {
        Some(o) => o,
        None => source_origin(source),
    }
    &&& opt_str_view(e.registry_id) == opt_str_view(provenance.registry_id)
    &&& opt_str_view(e.git_ref) == source_git_ref(source)
    &&& opt_str_view(e.commit) == opt_str_view(provenance.commit)
    &&& e.content_hash@ == content_hash
    &&& opt_str_view(e.registry_hash) == opt_str_view(provenance.registry_hash)
    &&& e.installed_at@ == installed_at
    &&& e.updated_at@ == now
}

/// Record `k` is the same before and after.
pub open spec fn others_kept(
    before: Map<Seq<char>, SkillLockEntry>,
    after: Map<Seq<char>, SkillLockEntry>,
    k: Seq<char>,
) -> bool {
    &&& after.contains_key(k) == before.contains_key(k)
    &&& before.contains_key(k) ==> after[k] == before[k]
}

fn clone_opt(o: &Option<String>) -> (r: Option<String>)
    ensures
        opt_str_view(r) == opt_str_view(*o),
{
    match o {
        Some(s) => Some(s.clone()),
        None => None,
    }
}

/// Write the lockfile record of skill `name` installed at time `now`. A
/// skill recorded before keeps its first-install time; no other record
/// changes.
pub fn record_at(
    lock: &mut SkillLock,
    name: &str,
    original_spec: &str,
    source: &SkillSource,
    provenance: &Provenance,
    content_hash: &str,
    now: &str,
)
    requires
        old(lock).wf(),
    ensures
        final(lock).wf(),
        final(lock).version == old(lock).version,
        final(lock).skills@.contains_key(name@),
        is_install_record(
            final(lock).skills@[name@],
            original_spec@,
            source@,
            *provenance,
            content_hash@,
            if old(lock).skills@.contains_key(name@) {
                old(lock).skills@[name@].installed_at@
            } else {
                now@
            },
            now@,
        ),
        forall|k: Seq<char>|
            k != name@ ==> others_kept(old(lock).skills@, final(lock).skills@, k),
{
    let origin = match provenance.origin_override {
        Some(o) => o,
        None => match source {
            SkillSource::Registry { .. } => SkillOrigin::Registry,
            SkillSource::Git { .. } => SkillOrigin::Git,
            SkillSource::Local { .. } => SkillOrigin::Local,
        },
    };
    let git_ref = match source {
        SkillSource::Git { git_ref, .. } => clone_opt(git_ref),
        _ => None,
    };
    let entry = SkillLockEntry {
        source: original_spec.to_owned(),
        source_id: source.identity(),
        origin,
        registry_id: clone_opt(&provenance.registry_id),
        git_ref,
        commit: clone_opt(&provenance.commit),
        content_hash: content_hash.to_owned(),
        registry_hash: clone_opt(&provenance.registry_hash),
        installed_at: now.to_owned(),
        updated_at: now.to_owned(),
    };
    let ghost e = entry;
    lock.upsert(name, entry);
    proof {
        assert(final(lock).skills@ == upsert_map(old(lock).skills@, name@, e));
    }
}

/// Write the lockfile record of a freshly installed skill, stamped with the
/// current time. Whatever the clock reads, the record is as `record_at`
/// describes, with the time it read as its update time.
pub fn record(
    lock: &mut SkillLock,
    name: &str,
    original_spec: &str,
    source: &SkillSource,
    provenance: &Provenance,
    content_hash: &str,
)
    requires
        old(lock).wf(),
    ensures
        final(lock).wf(),
        final(lock).version == old(lock).version,
        final(lock).skills@.contains_key(name@),
        is_install_record(
            final(lock).skills@[name@],
            original_spec@,
            source@,
            *provenance,
            content_hash@,
            if old(lock).skills@.contains_key(name@) {
                old(lock).skills@[name@].installed_at@
            } else {
                final(lock).skills@[name@].updated_at@
            },
            final(lock).skills@[name@].updated_at@,
        ),
        forall|k: Seq<char>|
            k != name@ ==> others_kept(old(lock).skills@, final(lock).skills@, k),
{
    let now = now_timestamp();
    record_at(lock, name, original_spec, source, provenance, content_hash, now.as_str());
}

// ---------------------------------------------------------------------------
// Reading a staged tree
// ---------------------------------------------------------------------------

/// A file path relative to the tree root, `\` read as `/`, that is copied:
/// it stays inside the tree and is not the registry's `metadata.json` sidecar.
pub open spec fn copied_path(rel: Seq<char>) -> bool {
    safe_relative_path(rel) && rel != "metadata.json"@
}

/// Whether the file at `relative` (relative to the tree root) is copied.
pub fn is_copied_file(relative: &str) -> (r: bool)
    ensures
        r == copied_path(replace_char(relative@, '\\', '/')),
{
    let rel = string_of(&replace_char_exec(&chars_of(relative), '\\', '/'));
    is_safe_relative_path(rel.as_str()) && !eq_str(rel.as_str(), "metadata.json")
}

pub open spec fn pair_views(s: Seq<(String, Vec<u8>)>) -> Seq<(Seq<char>, Seq<u8>)> {
    s.map_values(|e: (String, Vec<u8>)| (e.0@, e.1@))
}

/// `a + b`, or `u64::MAX` when that overflows.
pub open spec fn sat_add(a: u64, b: nat) -> u64 {
    if a + b > u64::MAX {
        u64::MAX
    } else {
        (a + b) as u64
    }
}

/// The files of a skill tree being read, and the bytes counted so far.
#[derive(Debug)]
pub struct TreeCollector {
    files: Vec<(String, Vec<u8>)>,
    total: u64,
}

impl TreeCollector {
    /// Every file taken has a path that is copied.
    #[verifier::type_invariant]
    spec fn only_copied_paths(self) -> bool {
        forall|i: int| 0 <= i < self.files@.len() ==> copied_path(#[trigger] self.files@[i].0@)
    }

    /// The files taken so far, in the order they were offered.
    pub closed spec fn entries(&self) -> Seq<(Seq<char>, Seq<u8>)> {
        pair_views(self.files@)
    }

    /// Bytes counted so far.
    pub closed spec fn counted(&self) -> u64 {
        self.total
    }

    /// A collector that has taken nothing.
    pub fn new() -> (r: TreeCollector)
        ensures
            r.entries() == Seq::<(Seq<char>, Seq<u8>)>::empty(),
            r.counted() == 0,
    {
        TreeCollector { files: Vec::new(), total: 0 }
    }

    /// Offer the file at `relative` (relative to the tree root) with contents
    /// `bytes`. A path that is unsafe or the `metadata.json` sidecar is
    /// skipped (`Ok(false)`). Otherwise the bytes are counted; a total over
    /// `MAX_SKILL_BYTES` or more than `MAX_SKILL_FILES` files is `TooLarge`.
    pub fn add_file(&mut self, relative: &str, bytes: Vec<u8>) -> (r: Result<bool, SkillInstallError>)
        ensures
            ({
                let rel = replace_char(relative@, '\\', '/');
                let t = sat_add(old(self).counted(), bytes@.len());
                let before = old(self).entries();
                let after = final(self).entries();
                let count = final(self).counted();
                if !copied_path(rel) {
                    &&& r matches Ok(false)
                    &&& after == before
                    &&& count == old(self).counted()
                } else if t > MAX_SKILL_BYTES {
                    &&& r matches Err(SkillInstallError::TooLarge { limit }) && limit == MAX_SKILL_BYTES
                    &&& after == before
                    &&& count == t
                } else {
                    &&& after == before.push((rel, bytes@))
                    &&& count == t
                    &&& if after.len() > MAX_SKILL_FILES {
                        r matches Err(SkillInstallError::TooLarge { limit }) && limit == MAX_SKILL_FILES as u64
                    } else {
                        r matches Ok(true)
                    }
                }
            }),
    {
        proof {
            use_type_invariant(&*self);
        }
        let rel = string_of(&replace_char_exec(&chars_of(relative), '\\', '/'));
        if !is_safe_relative_path(rel.as_str()) || eq_str(rel.as_str(), "metadata.json") {
            return Ok(false);
        }
        let n = bytes.len() as u64;
        let t = self.total.saturating_add(n);
        if t > MAX_SKILL_BYTES {
            self.total = t;
            return Err(SkillInstallError::TooLarge { limit: MAX_SKILL_BYTES });
        }
        let mut cur = TreeCollector::new();
        std::mem::swap(&mut cur, self);
        proof {
            use_type_invariant(&cur);
        }
        let ghost before = cur.files@;
        let TreeCollector { mut files, total: _ } = cur;
        let ghost rel_view = rel@;
        files.push((rel, bytes));
        let count = files.len();
        proof {
            assert(pair_views(files@) =~= pair_views(before).push(
                (replace_char(relative@, '\\', '/'), bytes@),
            ));
            assert forall|i: int| 0 <= i < files@.len() implies copied_path(#[trigger] files@[i].0@) by {
                if i < before.len() {
                    assert(files@[i] == before[i]);
                }
            }
        }
        *self = TreeCollector { files, total: t };
        if count > MAX_SKILL_FILES {
            return Err(SkillInstallError::TooLarge { limit: MAX_SKILL_FILES as u64 });
        }
        Ok(true)
    }

    /// The files taken, sorted by path; files with equal paths keep their
    /// order. Every path is one that is copied.
    pub fn finish(self) -> (r: Vec<(String, Vec<u8>)>)
        ensures
            pair_views(r@) == sort_by_key(
                self.entries(),
                |e: (Seq<char>, Seq<u8>)| entry_path(e),
            ),
            forall|i: int| 0 <= i < r@.len() ==> copied_path(#[trigger] r@[i].0@),
    {
        proof {
            use_type_invariant(&self);
        }
        let ghost orig = pair_views(self.files@);
        let ghost key = |e: (Seq<char>, Seq<u8>)| entry_path(e);
        proof {
            assert forall|i: int| 0 <= i < orig.len() implies copied_path(#[trigger] orig[i].0) by {
                assert(orig[i] == (self.files@[i].0@, self.files@[i].1@));
            }
        }
        let total = self.files.len();
        let mut rest = self.files;
        let mut r: Vec<(String, Vec<u8>)> = Vec::new();
        let mut k: usize = 0;
        while rest.len() > 0
            invariant
                k + rest@.len() == orig.len(),
                orig.len() == total,
                pair_views(rest@) == orig.subrange(k as int, orig.len() as int),
                key == (|e: (Seq<char>, Seq<u8>)| entry_path(e)),
                pair_views(r@) == sort_by_key(orig.subrange(0, k as int), key),
                forall|i: int| 0 <= i < orig.len() ==> copied_path(#[trigger] orig[i].0),
            decreases rest@.len(),
        {
            let ghost rest_before = rest@;
            let item = rest.remove(0);
            proof {
                assert(pair_views(rest_before)[0] == (item.0@, item.1@));
                assert(pair_views(rest@) =~= pair_views(rest_before).drop_first());
                let p = orig.subrange(0, k + 1);
                assert(p.drop_last() =~= orig.subrange(0, k as int));
                assert(p.last() == orig[k as int]);
                assert(orig[k as int] == pair_views(rest_before)[0]);
            }
            let ghost rv = pair_views(r@);
            let mut j: usize = 0;
            while j < r.len() && !lex_less_str(item.0.as_str(), r[j].0.as_str())
                invariant
                    j <= r@.len(),
                    rv == pair_views(r@),
                    key == (|e: (Seq<char>, Seq<u8>)| entry_path(e)),
                    forall|m: int| 0 <= m < j ==> !lex_lt(item.0@, key(#[trigger] rv[m])),
                decreases r@.len() - j,
            {
                proof {
                    assert(rv[j as int] == (r@[j as int].0@, r@[j as int].1@));
                }
                j = j + 1;
            }
            proof {
                if j < r@.len() {
                    assert(rv[j as int] == (r@[j as int].0@, r@[j as int].1@));
                }
                lemma_key_pos_at(rv, (item.0@, item.1@), key, j as int);
            }
            let ghost iv = (item.0@, item.1@);
            r.insert(j, item);
            proof {
                assert(pair_views(r@) =~= rv.insert(j as int, iv));
            }
            k = k + 1;
        }
        proof {
            assert(orig.subrange(0, k as int) =~= orig);
            lemma_copied_after_sort(orig, pair_views(r@));
            assert forall|i: int| 0 <= i < r@.len() implies copied_path(#[trigger] r@[i].0@) by {
                assert(pair_views(r@)[i] == (r@[i].0@, r@[i].1@));
                assert(copied_path(pair_views(r@)[i].0));
            }
        }
        r
    }
}

proof fn lemma_copied_after_sort(orig: Seq<(Seq<char>, Seq<u8>)>, sorted: Seq<(Seq<char>, Seq<u8>)>)
    requires
        forall|i: int| 0 <= i < orig.len() ==> copied_path(#[trigger] orig[i].0),
        sorted == sort_by_key(orig, |e: (Seq<char>, Seq<u8>)| entry_path(e)),
    ensures
        forall|i: int| 0 <= i < sorted.len() ==> copied_path(#[trigger] sorted[i].0),
{
    broadcast use vstd::seq_lib::group_to_multiset_ensures;

    crate::sorting::lemma_sort_by_key_permutes(orig, |e: (Seq<char>, Seq<u8>)| entry_path(e));
    assert forall|i: int| 0 <= i < sorted.len() implies copied_path(#[trigger] sorted[i].0) by {
        assert(sorted.contains(sorted[i]));
        assert(sorted.to_multiset().count(sorted[i]) > 0);
        assert(orig.to_multiset().count(sorted[i]) > 0);
        let j = choose|j: int| 0 <= j < orig.len() && orig[j] == sorted[i];
        assert(copied_path(orig[j].0));
    }
}

/// Directory names that never contain installable skills.
pub open spec fn skipped_dir_name(name: Seq<char>) -> bool {
    ||| name == ".git"@
    ||| name == ".github"@
    ||| name == "node_modules"@
    ||| name == "target"@
    ||| name == "__pycache__"@
    ||| name == "__pypackages__"@
    ||| name == ".venv"@
    ||| name == "venv"@
    ||| name == ".next"@
    ||| name == "dist"@
    ||| name == "build"@
}

/// Directories that never contain installable skills.
pub fn is_skipped_dir(name: &str) -> (r: bool)
    ensures
        r == skipped_dir_name(name@),
{
    eq_str(name, ".git") || eq_str(name, ".github") || eq_str(name, "node_modules") || eq_str(
        name,
        "target",
    ) || eq_str(name, "__pycache__") || eq_str(name, "__pypackages__") || eq_str(name, ".venv")
        || eq_str(name, "venv") || eq_str(name, ".next") || eq_str(name, "dist") || eq_str(
        name,
        "build",
    )
}

// ---------------------------------------------------------------------------
// Scanning a source tree for skills
// ---------------------------------------------------------------------------

/// Whether a directory `depth` levels below the scan root is still searched.
pub fn within_scan_depth(depth: usize) -> (r: bool)
    ensures
        r == (depth <= MAX_SCAN_DEPTH),
{
    depth <= MAX_SCAN_DEPTH
}

/// The names kept, in order.
pub open spec fn unskipped(names: Seq<String>) -> Seq<String>
    decreases names.len(),
{
    if names.len() == 0 {
        names
    } else if skipped_dir_name(names.last()@) {
        unskipped(names.drop_last())
    } else {
        unskipped(names.drop_last()).push(names.last())
    }
}

proof fn lemma_unskipped_counts(names: Seq<String>, v: Seq<char>)
    ensures
        views_of(unskipped(names)).to_multiset().count(v) == if skipped_dir_name(v) {
            0
        } else {
            views_of(names).to_multiset().count(v)
        },
    decreases names.len(),
{
    broadcast use vstd::seq_lib::group_to_multiset_ensures;

    if names.len() == 0 {
        assert(views_of(names) =~= Seq::<Seq<char>>::empty());
        assert(views_of(unskipped(names)) =~= Seq::<Seq<char>>::empty());
    } else {
        let prev = names.drop_last();
        lemma_unskipped_counts(prev, v);
        assert(views_of(names) =~= views_of(prev).push(names.last()@));
        if !skipped_dir_name(names.last()@) {
            assert(views_of(unskipped(names)) =~= views_of(unskipped(prev)).push(names.last()@));
        }
    }
}

/// Scanning drops a subdirectory exactly when its name is one of the skipped
/// names (`.git`, `node_modules`, `target`, ...): every other name, dot
/// directories such as `.config` included, is searched, as often as it was
/// listed.
pub proof fn law_scan_skips_exactly_the_listed_dirs(names: Seq<String>, v: Seq<char>)
    ensures
        sort_seq(views_of(unskipped(names))).to_multiset().count(v) == if skipped_dir_name(v) {
            0
        } else {
            views_of(names).to_multiset().count(v)
        },
        sort_seq(views_of(unskipped(names))).contains(v) <==> (views_of(names).contains(v)
            && !skipped_dir_name(v)),
{
    broadcast use vstd::seq_lib::group_to_multiset_ensures;

    lemma_unskipped_counts(names, v);
    crate::sorting::lemma_sort_permutes(views_of(unskipped(names)));
}

/// The subdirectories to search next, given the names of a directory's
/// subdirectories: skipped names dropped, the rest sorted.
pub fn child_dirs_to_scan(names: Vec<String>) -> (r: Vec<String>)
    ensures
        views_of(r@) == sort_seq(views_of(unskipped(names@))),
{
    let ghost orig = names@;
    let total = names.len();
    let mut rest = names;
    let mut kept: Vec<String> = Vec::new();
    let mut k: usize = 0;
    while rest.len() > 0
        invariant
            k + rest@.len() == orig.len(),
            orig.len() == total,
            rest@ == orig.subrange(k as int, orig.len() as int),
            kept@ == unskipped(orig.subrange(0, k as int)),
        decreases rest@.len(),
    {
        let name = rest.remove(0);
        proof {
            let p = orig.subrange(0, k + 1);
            assert(p.drop_last() =~= orig.subrange(0, k as int));
            assert(p.last() == name);
        }
        if !is_skipped_dir(name.as_str()) {
            kept.push(name);
        }
        k = k + 1;
        proof {
            assert(rest@ =~= orig.subrange(k as int, orig.len() as int));
        }
    }
    proof {
        assert(orig.subrange(0, k as int) =~= orig);
    }
    sort_strings(kept)
}

pub open spec fn staged_name(s: StagedSkill) -> Seq<char> {
    s.name@
}

/// Keeps the first of each run of equally named skills.
pub open spec fn dedup_names(s: Seq<StagedSkill>) -> Seq<StagedSkill>
    decreases s.len(),
{
    if s.len() == 0 {
        s
    } else if s.len() >= 2 && s.last().name@ == s[s.len() - 2].name@ {
        dedup_names(s.drop_last())
    } else {
        dedup_names(s.drop_last()).push(s.last())
    }
}

/// The skills found under `root`, sorted by name with one skill per name
/// (the first found), or `NoSkillsFound` naming `root` when there are none.
pub fn finish_scan(found: Vec<StagedSkill>, root: &str) -> (r: Result<Vec<StagedSkill>, SkillInstallError>)
    ensures
        found@.len() == 0 ==> (r matches Err(SkillInstallError::NoSkillsFound(p)) && p@ == root@),
        found@.len() > 0 ==> (r matches Ok(v) && v@ == dedup_names(
            sort_by_key(found@, |s: StagedSkill| staged_name(s)),
        )),
{
    if found.len() == 0 {
        return Err(SkillInstallError::NoSkillsFound(root.to_owned()));
    }
    let ghost orig = found@;
    let ghost key = |s: StagedSkill| staged_name(s);
    let total = found.len();
    let mut rest = found;
    let mut sorted: Vec<StagedSkill> = Vec::new();
    let mut k: usize = 0;
    while rest.len() > 0
        invariant
            k + rest@.len() == orig.len(),
            orig.len() == total,
            rest@ == orig.subrange(k as int, orig.len() as int),
            key == (|s: StagedSkill| staged_name(s)),
            sorted@ == sort_by_key(orig.subrange(0, k as int), key),
        decreases rest@.len(),
    {
        let item = rest.remove(0);
        proof {
            let p = orig.subrange(0, k + 1);
            assert(p.drop_last() =~= orig.subrange(0, k as int));
            assert(p.last() == item);
        }
        let ghost sv = sorted@;
        let mut j: usize = 0;
        while j < sorted.len() && !lex_less_str(item.name.as_str(), sorted[j].name.as_str())
            invariant
                j <= sorted@.len(),
                sv == sorted@,
                key == (|s: StagedSkill| staged_name(s)),
                forall|m: int| 0 <= m < j ==> !lex_lt(key(item), key(#[trigger] sv[m])),
            decreases sorted@.len() - j,
        {
            j = j + 1;
        }
        proof {
            lemma_key_pos_at(sv, item, key, j as int);
        }
        sorted.insert(j, item);
        k = k + 1;
        proof {
            assert(rest@ =~= orig.subrange(k as int, orig.len() as int));
        }
    }
    proof {
        assert(orig.subrange(0, k as int) =~= orig);
    }
    let ghost sorted_v = sorted@;
    let n = sorted.len();
    let mut out: Vec<StagedSkill> = Vec::new();
    let mut prev: Vec<char> = Vec::new();
    let mut m: usize = 0;
    while sorted.len() > 0
        invariant
            m + sorted@.len() == sorted_v.len(),
            sorted_v.len() == n,
            sorted@ == sorted_v.subrange(m as int, sorted_v.len() as int),
            out@ == dedup_names(sorted_v.subrange(0, m as int)),
            m > 0 ==> prev@ == sorted_v[m - 1].name@,
        decreases sorted@.len(),
    {
        let item = sorted.remove(0);
        let name = chars_of(item.name.as_str());
        let dup = m > 0 && crate::text::eq_chars(&name, &prev);
        proof {
            let p = sorted_v.subrange(0, m + 1);
            assert(p.drop_last() =~= sorted_v.subrange(0, m as int));
            assert(p.last() == item);
            if m > 0 {
                assert(p[p.len() - 2] == sorted_v[m - 1]);
            }
        }
        if !dup {
            out.push(item);
        }
        prev = name;
        m = m + 1;
        proof {
            assert(sorted@ =~= sorted_v.subrange(m as int, sorted_v.len() as int));
        }
    }
    proof {
        assert(sorted_v.subrange(0, m as int) =~= sorted_v);
    }
    Ok(out)
}

// ---------------------------------------------------------------------------
// Staging a source
// ---------------------------------------------------------------------------

/// `s` up to its first `/` and the rest after it, when it has one.
pub open spec fn split_once_slash(s: Seq<char>) -> Option<(Seq<char>, Seq<char>)> {
    let k = crate::text::find_char(s, '/');
    if k < 0 {
        None
    } else {
        Some((s.subrange(0, k), s.subrange(k + 1, s.len() as int)))
    }
}

fn joined_id(source: &str, slug: &str) -> (r: String)
    ensures
        r@ == source@ + seq!['/'] + slug@,
{
    let mut v = chars_of(source);
    v.push('/');
    push_str_chars(&mut v, slug);
    string_of(&v)
}

/// The owner and repository of a registry source `owner/repo`, split at its
/// first `/`; without one the skill `source/slug` is `NotFound`.
pub fn registry_owner_repo(source: &str, slug: &str) -> (r: Result<(String, String), RegistryError>)
    ensures
        match split_once_slash(source@) {
            Some(p) => r matches Ok(t) && t.0@ == p.0 && t.1@ == p.1,
            None => r matches Err(RegistryError::NotFound(n)) && n@ == source@ + seq!['/'] + slug@,
        },
{
    let v = chars_of(source);
    match crate::text::find_char_exec(&v, '/') {
        Some(k) => {
            let owner = string_of(&crate::text::slice_chars(&v, 0, k));
            let repo = string_of(&crate::text::tail(&v, k + 1));
            Ok((owner, repo))
        },
        None => Err(RegistryError::NotFound(joined_id(source, slug))),
    }
}

/// Re-check a downloaded payload's paths before they are written: the first
/// unsafe path is reported against `source/slug`.
pub fn check_registry_paths(source: &str, slug: &str, payload: &RegistrySkillFiles) -> (r: Result<
    (),
    RegistryError,
>)
    ensures
        match r {
            Ok(()) => forall|i: int|
                0 <= i < payload.files@.len() ==> safe_relative_path(
                    #[trigger] payload.files@[i].path@,
                ),
            Err(e) => exists|i: int|
                0 <= i < payload.files@.len() && !safe_relative_path(payload.files@[i].path@)
                    && (forall|j: int|
                    0 <= j < i ==> safe_relative_path(#[trigger] payload.files@[j].path@)) && e@
                    == RegistryErrorView::UnsafePath {
                    name: source@ + seq!['/'] + slug@,
                    path: payload.files@[i].path@,
                },
        },
{
    let mut i: usize = 0;
    while i < payload.files.len()
        invariant
            i <= payload.files@.len(),
            forall|j: int| 0 <= j < i ==> safe_relative_path(#[trigger] payload.files@[j].path@),
        decreases payload.files@.len() - i,
    {
        if !is_safe_relative_path(payload.files[i].path.as_str()) {
            return Err(
                RegistryError::UnsafePath {
                    name: joined_id(source, slug),
                    path: payload.files[i].path.clone(),
                },
            );
        }
        i = i + 1;
    }
    Ok(())
}

/// Provenance of a registry download of `source/slug` whose payload carried `hash`.
pub fn registry_provenance(source: &str, slug: &str, hash: Option<String>) -> (r: Provenance)
    ensures
        r.origin_override == Some(SkillOrigin::Registry),
        r.commit is None,
        opt_str_view(r.registry_hash) == opt_str_view(hash),
        opt_str_view(r.registry_id) == Some(source@ + seq!['/'] + slug@),
{
    Provenance {
        origin_override: Some(SkillOrigin::Registry),
        commit: None,
        registry_hash: hash,
        registry_id: Some(joined_id(source, slug)),
    }
}

/// Provenance of a git checkout resolved to `commit`.
pub fn git_provenance(commit: Option<String>) -> (r: Provenance)
    ensures
        r.origin_override == Some(SkillOrigin::Git),
        opt_str_view(r.commit) == opt_str_view(commit),
        r.registry_hash is None,
        r.registry_id is None,
{
    Provenance { origin_override: Some(SkillOrigin::Git), commit, registry_hash: None, registry_id: None }
}

/// Provenance of a local directory.
pub fn local_provenance() -> (r: Provenance)
    ensures
        r.origin_override == Some(SkillOrigin::Local),
        r.commit is None,
        r.registry_hash is None,
        r.registry_id is None,
{
    Provenance { origin_override: Some(SkillOrigin::Local), commit: None, registry_hash: None, registry_id: None }
}

/// The directory of a git checkout to scan: the checkout itself, or its
/// `subpath`, which must stay inside it.
pub fn git_scan_root(checkout: &str, subpath: Option<&str>) -> (r: Result<String, SkillInstallError>)
    ensures
        match subpath {
            None => r matches Ok(p) && p@ == checkout@,
            Some(sub) => match join_within_spec(checkout@, sub@) {
                Some(j) => r matches Ok(p) && p@ == j,
                None => r matches Err(SkillInstallError::InvalidSkill { name, reason }) && name@
                    == sub@ && reason@ == "subdirectory escapes the repository root"@,
            },
        },
{
    match subpath {
        None => Ok(checkout.to_owned()),
        Some(sub) => match join_within(checkout, sub) {
            Some(p) => Ok(p),
            None => Err(
                SkillInstallError::InvalidSkill {
                    name: sub.to_owned(),
                    reason: "subdirectory escapes the repository root".to_owned(),
                },
            ),
        },
    }
}

/// The error for a repository `url` whose subdirectory `sub` does not exist.
pub fn missing_subdirectory(url: &str, sub: &str) -> (r: SkillInstallError)
    ensures
        r matches SkillInstallError::NoSkillsFound(m) && m@ == url@ + " ("@ + sub@ + ")"@,
{
    let mut v = chars_of(url);
    push_str_chars(&mut v, " (");
    push_str_chars(&mut v, sub);
    push_str_chars(&mut v, ")");
    SkillInstallError::NoSkillsFound(string_of(&v))
}

// ---------------------------------------------------------------------------
// Writing a tree
// ---------------------------------------------------------------------------

/// Where a file at `relative` is written under `staged_root`, which it must
/// not escape.
pub fn staged_file_target(staged_root: &str, relative: &str) -> (r: Result<String, SkillInstallError>)
    ensures
        match join_within_spec(staged_root@, relative@) {
            Some(j) => r matches Ok(p) && p@ == j,
            None => r matches Err(SkillInstallError::InvalidSkill { name, reason }) && name@
                == relative@ && reason@ == "file path escapes the skill directory"@,
        },
{
    match join_within(staged_root, relative) {
        Some(p) => Ok(p),
        None => Err(
            SkillInstallError::InvalidSkill {
                name: relative.to_owned(),
                reason: "file path escapes the skill directory".to_owned(),
            },
        ),
    }
}

/// The error for an install path without a parent directory.
pub fn no_parent_directory(destination: &str) -> (r: SkillInstallError)
    ensures
        r matches SkillInstallError::InvalidSkill { name, reason } && name@ == destination@
            && reason@ == "install path has no parent directory"@,
{
    SkillInstallError::InvalidSkill {
        name: destination.to_owned(),
        reason: "install path has no parent directory".to_owned(),
    }
}

/// Whether an install saves the lockfile: it does unless it is a dry run or
/// nothing was installed.
pub fn should_save_lock(options: &InstallOptions, installed: usize) -> (r: bool)
    ensures
        r == (!options.dry_run && installed > 0),
{
    !options.dry_run && installed > 0
}

/// What an install run holds: the skills that landed, in order, and the first
/// failure.
pub type RunState = (Seq<InstalledSkill>, Option<SkillInstallError>);

/// One step of an install run: after a failure nothing changes; otherwise a
/// success is appended and a failure is kept.
pub open spec fn run_step(state: RunState, outcome: Result<InstalledSkill, SkillInstallError>) -> RunState {
    if state.1 is Some {
        state
    } else {
        match outcome {
            Ok(done) => (state.0.push(done), None),
            Err(e) => (state.0, Some(e)),
        }
    }
}

/// The state of a run that was handed `outcomes` in order, from the start.
pub open spec fn run_over(outcomes: Seq<Result<InstalledSkill, SkillInstallError>>) -> RunState
    decreases outcomes.len(),
{
    if outcomes.len() == 0 {
        (Seq::empty(), None)
    } else {
        run_step(run_over(outcomes.drop_last()), outcomes.last())
    }
}

/// An install run stops at the first failure and keeps what landed before
/// it: when the first `k` outcomes succeeded and the next one (if any)
/// failed, the run holds exactly those `k` skills, in order, and that failure,
/// whatever outcomes came after it.
pub proof fn law_run_stops_at_first_failure(outcomes: Seq<Result<InstalledSkill, SkillInstallError>>, k: int)
    requires
        0 <= k <= outcomes.len(),
        forall|i: int| 0 <= i < k ==> #[trigger] outcomes[i] is Ok,
        k < outcomes.len() ==> outcomes[k] is Err,
    ensures
        run_over(outcomes).0 == outcomes.take(k).map_values(|o: Result<InstalledSkill, SkillInstallError>| o->Ok_0),
        run_over(outcomes).1 == (if k < outcomes.len() {
            Some(outcomes[k]->Err_0)
        } else {
            None
        }),
    decreases outcomes.len(),
{
    let n = outcomes.len() as int;
    if n == 0 {
        assert(outcomes.take(k) =~= Seq::<Result<InstalledSkill, SkillInstallError>>::empty());
    } else {
        let prev = outcomes.drop_last();
        if k == n {
            law_run_stops_at_first_failure(prev, n - 1);
            assert(outcomes[n - 1] is Ok);
            assert(outcomes.take(k).map_values(|o: Result<InstalledSkill, SkillInstallError>| o->Ok_0)
                =~= prev.take(n - 1).map_values(|o: Result<InstalledSkill, SkillInstallError>| o->Ok_0).push(outcomes[n - 1]->Ok_0));
        } else if k == n - 1 {
            law_run_stops_at_first_failure(prev, n - 1);
            assert(prev.take(n - 1) =~= outcomes.take(k));
        } else {
            law_run_stops_at_first_failure(prev, k);
            assert(prev.take(k) =~= outcomes.take(k));
            assert(prev[k] == outcomes[k]);
        }
    }
}

/// An install over the selected skills in progress: the skills that landed so
/// far, in order, and the first failure. After a failure nothing more is tried,
/// but what already landed is kept, so the lockfile can still describe it.
#[derive(Debug)]
pub struct InstallRun {
    pub results: Vec<InstalledSkill>,
    pub failure: Option<SkillInstallError>,
}

impl InstallRun {
    /// A run that has installed nothing yet.
    pub fn new() -> (r: InstallRun)
        ensures
            r.results@.len() == 0,
            r.failure is None,
    {
        InstallRun { results: Vec::new(), failure: None }
    }

    /// Whether the next selected skill should be attempted.
    pub fn wants_more(&self) -> (r: bool)
        ensures
            r == (self.failure is None),
    {
        self.failure.is_none()
    }

    /// Take the outcome of installing one skill. A success is appended to the
    /// results; the first failure ends the run. Once the run has ended, further
    /// outcomes change nothing. Returns whether the run goes on.
    pub fn step(&mut self, outcome: Result<InstalledSkill, SkillInstallError>) -> (go_on: bool)
        ensures
            (final(self).results@, final(self).failure)
                == run_step((old(self).results@, old(self).failure), outcome),
            go_on == (final(self).failure is None),
    {
        if self.failure.is_some() {
            return false;
        }
        match outcome {
            Ok(done) => {
                self.results.push(done);
                true
            },
            Err(e) => {
                self.failure = Some(e);
                false
            },
        }
    }

    /// Whether the lockfile is saved at the end of this run: the same rule as
    /// [`should_save_lock`], over the skills that landed, failure or not.
    pub fn saves_lock(&self, options: &InstallOptions) -> (r: bool)
        ensures
            r == (!options.dry_run && self.results@.len() > 0),
    {
        should_save_lock(options, self.results.len())
    }

    /// The install's result: the first failure if there was one, else every
    /// installed skill in order.
    pub fn finish(self) -> (r: Result<Vec<InstalledSkill>, SkillInstallError>)
        ensures
            match self.failure {
                Some(e) => r == Err::<Vec<InstalledSkill>, SkillInstallError>(e),
                None => r matches Ok(v) && v@ == self.results@,
            },
    {
        match self.failure {
            Some(e) => Err(e),
            None => Ok(self.results),
        }
    }
}

// ---------------------------------------------------------------------------
// Removing
// ---------------------------------------------------------------------------

/// The normalized name of skill `name` and its directory in `scope`, or
/// `NotInstalled` when the name does not resolve inside the scope.
pub fn removal_target(name: &str, scope: &SkillScopeTarget) -> (r: Result<(String, String), SkillInstallError>)
    ensures
        ({
            let n = normalize_spec(name@);
            let nn = normalize_spec(n);
            match r {
                Ok(t) => t.0@ == n && valid_name_spec(nn) && join_within_spec(
                    scope.spec_skills_dir(),
                    nn,
                ) == Some(t.1@),
                Err(e) => (!valid_name_spec(nn) || join_within_spec(scope.spec_skills_dir(), nn) is None)
                    && (e matches SkillInstallError::NotInstalled(m) && m@ == name@),
            }
        }),
{
    let normalized = normalize_name(name);
    match scope.skill_dir(normalized.as_str()) {
        Some(dir) => Ok((normalized, dir)),
        None => Err(SkillInstallError::NotInstalled(name.to_owned())),
    }
}

/// What a removal does on disk.
#[derive(Debug, Clone, Copy, PartialEq, Eq, Structural)]
pub struct RemovalPlan {
    /// Whether the skill's directory is deleted.
    pub delete_files: bool,
    /// Whether the lockfile is saved.
    pub save_lock: bool,
}

/// Drop the record of `normalized` from `lock` and decide what the removal of
/// skill `name` does, given whether its directory exists. A skill that is
/// neither on disk nor recorded is `NotInstalled`; a record whose directory
/// was deleted by hand is cleared; `keep_files` drops only the record.
pub fn plan_removal(
    name: &str,
    normalized: &str,
    lock: &mut SkillLock,
    dir_exists: bool,
    keep_files: bool,
) -> (r: Result<RemovalPlan, SkillInstallError>)
    requires
        old(lock).wf(),
    ensures
        final(lock).wf(),
        final(lock).version == old(lock).version,
        final(lock).skills@ == old(lock).skills@.remove(normalized@),
        if !dir_exists && !old(lock).skills@.contains_key(normalized@) {
            r matches Err(SkillInstallError::NotInstalled(m)) && m@ == name@
        } else {
            r matches Ok(p) && p.save_lock && p.delete_files == (dir_exists && !keep_files)
        },
{
    let had_record = lock.remove(normalized);
    if !dir_exists {
        if !had_record {
            return Err(SkillInstallError::NotInstalled(name.to_owned()));
        }
        return Ok(RemovalPlan { delete_files: false, save_lock: true });
    }
    Ok(RemovalPlan { delete_files: !keep_files, save_lock: true })
}

// ---------------------------------------------------------------------------
// Updating
// ---------------------------------------------------------------------------

/// What an update of one tracked skill re-resolves.
#[derive(Debug)]
pub struct UpdatePlan {
    /// The skill's normalized name, its lockfile key.
    pub normalized: String,
    /// The source string it was installed from.
    pub source: String,
    /// Whether that source is read as a registry id first.
    pub prefer_registry: bool,
}

/// The update of skill `name`: its recorded source, read as a registry id
/// when it was installed from the registry; `NotTracked` when the lockfile
/// has no record of it.
pub fn update_plan(name: &str, lock: &SkillLock) -> (r: Result<UpdatePlan, SkillInstallError>)
    requires
        lock.wf(),
    ensures
        ({
            let n = normalize_spec(name@);
            if lock.skills@.contains_key(n) {
                r matches Ok(p) && p.normalized@ == n && p.source@ == lock.skills@[n].source@
                    && p.prefer_registry == (lock.skills@[n].origin == SkillOrigin::Registry)
            } else {
                r matches Err(SkillInstallError::NotTracked(m)) && m@ == name@
            }
        }),
{
    let normalized = normalize_name(name);
    match lock.get(normalized.as_str()) {
        None => Err(SkillInstallError::NotTracked(name.to_owned())),
        Some(entry) => {
            let prefer_registry = match entry.origin {
                SkillOrigin::Registry => true,
                _ => false,
            };
            Ok(UpdatePlan { normalized, source: entry.source.clone(), prefer_registry })
        },
    }
}

/// The install options of an update: the caller's, narrowed to exactly the
/// skill being updated even when its source holds several.
pub fn update_options(options: &InstallOptions, normalized: &str) -> (r: InstallOptions)
    ensures
        r.force == options.force,
        r.dry_run == options.dry_run,
        r.only matches Some(o) && o@ == normalized@,
{
    InstallOptions { force: options.force, dry_run: options.dry_run, only: Some(normalized.to_owned()) }
}

/// The result of an update: the installed skill named `normalized`, or
/// `SkillNotInSource` when the source no longer provides it.
pub fn pick_updated(results: Vec<InstalledSkill>, normalized: &str, spec: &str) -> (r: Result<
    InstalledSkill,
    SkillInstallError,
>)
    ensures
        match r {
            Ok(s) => exists|i: int|
                0 <= i < results@.len() && results@[i] == s && s.name@ == normalized@ && forall|
                    j: int,
                | 0 <= j < i ==> (#[trigger] results@[j]).name@ != normalized@,
            Err(e) => (forall|j: int| 0 <= j < results@.len() ==> (#[trigger] results@[j]).name@
                != normalized@) && (e matches SkillInstallError::SkillNotInSource { spec: sp, skill }
                && sp@ == spec@ && skill@ == normalized@),
        },
{
    let ghost orig = results@;
    let total = results.len();
    let mut rest = results;
    let mut k: usize = 0;
    while rest.len() > 0
        invariant
            k + rest@.len() == orig.len(),
            orig.len() == total,
            rest@ == orig.subrange(k as int, orig.len() as int),
            orig == results@,
            forall|j: int| 0 <= j < k ==> (#[trigger] orig[j]).name@ != normalized@,
        decreases rest@.len(),
    {
        let item = rest.remove(0);
        proof {
            assert(item == orig[k as int]);
        }
        if eq_str(item.name.as_str(), normalized) {
            proof {
                assert(orig[k as int] == item);
                assert(forall|j: int| 0 <= j < k ==> (#[trigger] orig[j]).name@ != normalized@);
            }
            return Ok(item);
        }
        k = k + 1;
        proof {
            assert(rest@ =~= orig.subrange(k as int, orig.len() as int));
        }
    }
    Err(SkillInstallError::SkillNotInSource { spec: spec.to_owned(), skill: normalized.to_owned() })
}

// ---------------------------------------------------------------------------
// Laws of installing
// ---------------------------------------------------------------------------

/// An installed skill is only replaced with `force` when it was never
/// recorded, or when its files changed since they were recorded: such an
/// install is refused, dry run or not.
pub proof fn law_unrecorded_or_edited_skills_need_force(
    name: Seq<char>,
    installed_hash: Option<Seq<char>>,
    content_hash: Seq<char>,
    tracked_hash: Option<Seq<char>>,
    dry_run: bool,
)
    requires
        installed_hash != Some(content_hash),
        tracked_hash is None || (installed_hash is Some && installed_hash != tracked_hash),
    ensures
        install_decision(name, true, installed_hash, content_hash, tracked_hash, false, dry_run) is Err,
{
}

/// Reinstalling a skill whose installed files hash to the staged contents
/// writes nothing and only refreshes the record, whatever the options.
pub proof fn law_identical_reinstall_writes_nothing(
    name: Seq<char>,
    content_hash: Seq<char>,
    tracked_hash: Option<Seq<char>>,
    force: bool,
    dry_run: bool,
)
    ensures
        install_decision(name, true, Some(content_hash), content_hash, tracked_hash, force, dry_run)
            == Ok::<InstallStep, Seq<char>>(
            InstallStep { action: InstallAction::Unchanged, write: false, record: true },
        ),
{
}

/// A dry run writes no files, and its lockfile is never saved.
pub proof fn law_dry_run_writes_nothing(
    name: Seq<char>,
    existed: bool,
    installed_hash: Option<Seq<char>>,
    content_hash: Seq<char>,
    tracked_hash: Option<Seq<char>>,
    force: bool,
    options: InstallOptions,
    installed: usize,
)
    requires
        options.dry_run,
    ensures
        match install_decision(name, existed, installed_hash, content_hash, tracked_hash, force, true) {
            Ok(step) => !step.write,
            Err(_) => true,
        },
        !(!options.dry_run && installed > 0),
{
}

} // verus!
