//! Where a marketplace skill is installed.
//!
//! Skills install into one of two scopes:
//!
//! - **user** — `~/.grok/skills/`, available in every project
//! - **project** — `<repo root or cwd>/.grok/skills/`, shared through version control
//!
//! Both scopes keep their lockfile next to the `skills/` directory.

use vstd::prelude::*;
use crate::paths::{join_str, path_join};
use crate::skill_validate::{is_valid_name, join_within, join_within_spec, normalize_name, normalize_spec, valid_name_spec};
use crate::text::{chars_of, eq_chars, lower_exec, lower_seq, string_of, trim, trim_ws};

verus! {

/// Which scope an install targets.
#[derive(Debug, Clone, Copy, PartialEq, Eq, Structural)]
pub enum SkillScopeKind {
    /// `~/.grok/skills`, available across all projects.
    User,
    /// `<project>/.grok/skills`, shared with the repository.
    Project,
}

impl Default for SkillScopeKind {
    fn default() -> (r: SkillScopeKind)
        ensures
            r == SkillScopeKind::User,
    {
        SkillScopeKind::User
    }
}

/// The scope a `--scope` value names, after trimming and ASCII lowercasing.
pub open spec fn parse_scope_spec(value: Seq<char>) -> Option<SkillScopeKind> {
    let v = lower_seq(trim(value));
    if v == "user"@ || v == "global"@ {
        Some(SkillScopeKind::User)
    } else if v == "project"@ || v == "repo"@ || v == "local"@ {
        Some(SkillScopeKind::Project)
    } else {
        None
    }
}

impl SkillScopeKind {
    pub open spec fn label(self) -> Seq<char> {
        match self {
            SkillScopeKind::User => "user"@,
            SkillScopeKind::Project => "project"@,
        }
    }

    /// Short lowercase label for display and JSON output.
    pub fn as_str(self) -> (r: &'static str)
        ensures
            r@ == self.label(),
    {
        match self {
            SkillScopeKind::User => "user",
            SkillScopeKind::Project => "project",
        }
    }

    /// Parse a `--scope` value.
    pub fn parse(value: &str) -> (r: Option<SkillScopeKind>)
        ensures
            r == parse_scope_spec(value@),
    {
        let v = lower_exec(&trim_ws(&chars_of(value)));
        if eq_chars(&v, &chars_of("user")) || eq_chars(&v, &chars_of("global")) {
            Some(SkillScopeKind::User)
        } else if eq_chars(&v, &chars_of("project")) || eq_chars(&v, &chars_of("repo")) || eq_chars(
            &v,
            &chars_of("local"),
        ) {
            Some(SkillScopeKind::Project)
        } else {
            None
        }
    }
}

/// A resolved install location.
#[derive(Debug, Clone, PartialEq, Eq)]
pub struct SkillScopeTarget {
    kind: SkillScopeKind,
    /// The `.grok` directory that owns this scope.
    root: String,
}

impl SkillScopeTarget {
    pub closed spec fn spec_kind(&self) -> SkillScopeKind {
        self.kind
    }

    /// The `.grok` directory that owns this scope.
    pub closed spec fn spec_root(&self) -> Seq<char> {
        self.root@
    }

    pub open spec fn spec_skills_dir(&self) -> Seq<char> {
        path_join(self.spec_root(), "skills"@)
    }

    /// Build a target from an already-resolved `.grok` directory.
    pub fn new(kind: SkillScopeKind, root: String) -> (r: SkillScopeTarget)
        ensures
            r.spec_kind() == kind,
            r.spec_root() == root@,
    {
        SkillScopeTarget { kind, root }
    }

    /// The user scope under the grok home directory.
    pub fn user(grok_home: &str) -> (r: SkillScopeTarget)
        ensures
            r.spec_kind() == SkillScopeKind::User,
            r.spec_root() == grok_home@,
    {
        SkillScopeTarget::new(SkillScopeKind::User, string_of(&chars_of(grok_home)))
    }

    /// The project scope: `.grok` under the repository root that contains
    /// `cwd` when there is one, otherwise under `cwd` itself.
    pub fn project(cwd: &str, repo_root: Option<&str>) -> (r: SkillScopeTarget)
        ensures
            r.spec_kind() == SkillScopeKind::Project,
            r.spec_root() == path_join(
                match repo_root {
                    Some(root) => root@,
                    None => cwd@,
                },
                ".grok"@,
            ),
    {
        let base = match repo_root {
            Some(root) => root,
            None => cwd,
        };
        SkillScopeTarget::new(SkillScopeKind::Project, join_str(base, ".grok"))
    }

    /// Which scope this target represents.
    pub fn kind(&self) -> (r: SkillScopeKind)
        ensures
            r == self.spec_kind(),
    {
        self.kind
    }

    /// The `.grok` directory that owns this scope; also holds the lockfile.
    pub fn root(&self) -> (r: &str)
        ensures
            r@ == self.spec_root(),
    {
        self.root.as_str()
    }

    /// The `skills/` directory inside this scope.
    pub fn skills_dir(&self) -> (r: String)
        ensures
            r@ == self.spec_skills_dir(),
    {
        join_str(self.root.as_str(), "skills")
    }

    /// Absolute path for an installed skill, or `None` when the normalized
    /// name is not a valid slug or would escape the skills directory.
    pub fn skill_dir(&self, name: &str) -> (r: Option<String>)
        ensures
            ({
                let n = normalize_spec(name@);
                match r {
                    Some(p) => valid_name_spec(n) && join_within_spec(self.spec_skills_dir(), n) == Some(p@),
                    None => !valid_name_spec(n) || join_within_spec(self.spec_skills_dir(), n) is None,
                }
            }),
    {
        let normalized = normalize_name(name);
        if !is_valid_name(normalized.as_str()) {
            return None;
        }
        join_within(self.skills_dir().as_str(), normalized.as_str())
    }
}

/// The names of the skills present in a scope, sorted: a directory entry
/// counts when it holds a `SKILL.md` file.
pub fn installed_names_from(entries: Vec<(String, bool)>) -> (r: Vec<String>)
    ensures
        crate::sorting::views_of(r@) == crate::sorting::sort_seq(
            crate::sorting::views_of(crate::sorting::firsts_where_second(entries@)),
        ),
{
    let mut names: Vec<String> = Vec::new();
    let mut i: usize = 0;
    while i < entries.len()
        invariant
            i <= entries@.len(),
            names@ == crate::sorting::firsts_where_second(entries@.subrange(0, i as int)),
        decreases entries@.len() - i,
    {
        proof {
            assert(entries@.subrange(0, i + 1).drop_last() =~= entries@.subrange(0, i as int));
        }
        if entries[i].1 {
            names.push(entries[i].0.clone());
        }
        i = i + 1;
    }
    proof {
        assert(entries@.subrange(0, entries@.len() as int) =~= entries@);
    }
    crate::sorting::sort_strings(names)
}

/// A skill's directory is always a direct child of the skills directory:
/// the normalized name it is filed under is a single path component (no `/`,
/// not `.` or `..`), so no name, however crafted, reaches outside.
pub proof fn law_skill_dir_is_a_child(skills_dir: Seq<char>, name: Seq<char>)
    requires
        valid_name_spec(normalize_spec(name)),
    ensures
        join_within_spec(skills_dir, normalize_spec(name)) == Some(
            path_join(skills_dir, normalize_spec(name)),
        ),
        !crate::text::contains_char(normalize_spec(name), '/'),
        normalize_spec(name) != "."@,
        normalize_spec(name) != ".."@,
{
    let n = normalize_spec(name);
    reveal_strlit(".");
    reveal_strlit("..");
    assert(crate::skill_validate::is_slug_char(n[0]));
    assert(crate::text::replace_char(n, '\\', '/') =~= n) by {
        assert forall|i: int| 0 <= i < n.len() implies n[i] != '\\' by {
            assert(crate::skill_validate::is_slug_char(n[i]));
        }
    }
    assert(!crate::text::contains_char(n, '/')) by {
        if crate::text::contains_char(n, '/') {
            let i = choose|i: int| 0 <= i < n.len() && n[i] == '/';
            assert(crate::skill_validate::is_slug_char(n[i]));
        }
    }
    let cls = crate::text::CharClass::Exactly('/');
    crate::text::lemma_find_class(n, cls);
    assert(crate::text::find_class(n, cls) == -1) by {
        assert forall|j: int| 0 <= j < n.len() implies !crate::text::in_class(cls, #[trigger] n[j]) by {
            assert(crate::skill_validate::is_slug_char(n[j]));
        }
    }
    crate::text::lemma_split_class_unfold(n, cls);
    let comps = crate::text::split_class(n, cls);
    assert(comps =~= seq![n]);
    assert(n != "."@) by {
        if n == "."@ {
            assert(n[0] == '.');
        }
    }
    assert(n != ".."@) by {
        if n == ".."@ {
            assert(n[0] == '.');
        }
    }
    assert(crate::skill_source::keep_parts(comps) =~= seq![n]) by {
        assert(comps.drop_last() =~= Seq::<Seq<char>>::empty());
        assert(crate::skill_source::keep_parts(Seq::<Seq<char>>::empty()) =~= Seq::<Seq<char>>::empty());
    }
    assert(!crate::text::contains_char(n, ':')) by {
        if crate::text::contains_char(n, ':') {
            let i = choose|i: int| 0 <= i < n.len() && n[i] == ':';
            assert(crate::skill_validate::is_slug_char(n[i]));
        }
    }
    let parts = crate::skill_source::keep_parts(comps);
    assert(parts.drop_last() =~= Seq::<Seq<char>>::empty());
    assert(crate::skill_validate::push_parts(skills_dir, Seq::<Seq<char>>::empty()) == skills_dir);
    assert(crate::skill_validate::push_parts(skills_dir, parts) == path_join(skills_dir, n));
}

} // verus!
