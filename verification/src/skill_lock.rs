//! Install records for marketplace-installed skills.
//!
//! Every installed skill gets a lockfile entry recording where it came from
//! and what its contents hashed to. That tells marketplace skills apart from
//! hand-written ones, detects local edits before an update overwrites them,
//! and skips updates whose upstream content did not change.
//!
//! The records are kept sorted by skill name, one record per name.

use vstd::prelude::*;
use crate::order::{eq_str, lemma_lex_irreflexive, lemma_lex_transitive, lemma_lex_trichotomy, lex_less_str, lex_lt};
use crate::paths::path_join;
use crate::sorting::{
    is_sorted_by_key, lemma_key_pos_at, lemma_sort_by_key_permutes, lemma_sort_by_key_sorted,
    sort_by_key,
};
use crate::text::{chars_of, replace_char, replace_char_exec, string_of};
use sha2::Digest;
use vstd::utf8::encode_utf8;

verus! {

/// Lockfile schema version. A lower version on disk is discarded rather than
/// migrated, since re-installing is cheap and a wrong migration is not.
pub const LOCK_VERSION: u32 = 1;

/// Lockfile name, written next to the `skills/` directory it describes.
pub const LOCK_FILE_NAME: &'static str = "skills.lock.json";

/// Errors from reading or writing the lockfile.
#[derive(Debug, Clone, PartialEq, Eq)]
pub enum SkillLockError {
    /// Reading failed; `message` is the operating system's account of why.
    Read { path: String, message: String },
    /// Writing failed; `message` is the operating system's account of why.
    Write { path: String, message: String },
    /// The lock could not be serialized.
    Serialize(String),
}

impl SkillLockError {
    /// The sentence shown to the user for this error.
    pub open spec fn text(&self) -> Seq<char> {
        match self {
            SkillLockError::Read { path, message } => "failed to read skill lockfile at "@ + path@
                + ": "@ + message@,
            SkillLockError::Write { path, message } => "failed to write skill lockfile at "@ + path@
                + ": "@ + message@,
            SkillLockError::Serialize(m) => "failed to serialize skill lockfile: "@ + m@,
        }
    }

    /// The sentence shown to the user for this error.
    pub fn message(&self) -> (r: String)
        ensures
            r@ == self.text(),
    {
        let mut v: Vec<char> = Vec::new();
        match self {
            SkillLockError::Read { path, message } => {
                crate::text::push_str_chars(&mut v, "failed to read skill lockfile at ");
                crate::text::push_str_chars(&mut v, path.as_str());
                crate::text::push_str_chars(&mut v, ": ");
                crate::text::push_str_chars(&mut v, message.as_str());
            },
            SkillLockError::Write { path, message } => {
                crate::text::push_str_chars(&mut v, "failed to write skill lockfile at ");
                crate::text::push_str_chars(&mut v, path.as_str());
                crate::text::push_str_chars(&mut v, ": ");
                crate::text::push_str_chars(&mut v, message.as_str());
            },
            SkillLockError::Serialize(m) => {
                crate::text::push_str_chars(&mut v, "failed to serialize skill lockfile: ");
                crate::text::push_str_chars(&mut v, m.as_str());
            },
        }
        string_of(&v)
    }
}

/// How an installed skill was obtained.
#[derive(Debug, Clone, Copy, PartialEq, Eq, Structural)]
pub enum SkillOrigin {
    /// Downloaded from the skills.sh registry API.
    Registry,
    /// Cloned from a git repository.
    Git,
    /// Copied from a directory on this machine.
    Local,
}

impl SkillOrigin {
    pub open spec fn label(self) -> Seq<char> {
        match self {
            SkillOrigin::Registry => "registry"@,
            SkillOrigin::Git => "git"@,
            SkillOrigin::Local => "local"@,
        }
    }

    /// Short lowercase label for display and JSON output.
    pub fn as_str(self) -> (r: &'static str)
        ensures
            r@ == self.label(),
    {
        match self {
            SkillOrigin::Registry => "registry",
            SkillOrigin::Git => "git",
            SkillOrigin::Local => "local",
        }
    }
}

/// One installed skill's provenance record.
#[derive(Debug, Clone, PartialEq, Eq)]
pub struct SkillLockEntry {
    /// The source string the user originally passed to `install`.
    pub source: String,
    /// Normalized source identity, used to re-resolve on update.
    pub source_id: String,
    /// How the skill was obtained.
    pub origin: SkillOrigin,
    /// Registry id (`source/slug`) when the skill came from the registry.
    pub registry_id: Option<String>,
    /// Git ref that was checked out, when known.
    pub git_ref: Option<String>,
    /// Resolved commit sha, when the source was a git repository.
    pub commit: Option<String>,
    /// Content hash of the installed files at install time.
    pub content_hash: String,
    /// Hash the registry reported, when it supplied one.
    pub registry_hash: Option<String>,
    /// RFC 3339 timestamp of the first install.
    pub installed_at: String,
    /// RFC 3339 timestamp of the most recent install or update.
    pub updated_at: String,
}

/// `e` with its first-install timestamp replaced by `installed_at`.
pub open spec fn with_installed_at(e: SkillLockEntry, installed_at: String) -> SkillLockEntry {
    SkillLockEntry {
        source: e.source,
        source_id: e.source_id,
        origin: e.origin,
        registry_id: e.registry_id,
        git_ref: e.git_ref,
        commit: e.commit,
        content_hash: e.content_hash,
        registry_hash: e.registry_hash,
        installed_at,
        updated_at: e.updated_at,
    }
}

/// The records after recording `e` under `name`: a record that was already
/// there keeps its first-install timestamp.
pub open spec fn upsert_map(m: Map<Seq<char>, SkillLockEntry>, name: Seq<char>, e: SkillLockEntry) -> Map<Seq<char>, SkillLockEntry> {
    if m.contains_key(name) {
        m.insert(name, with_installed_at(e, m[name].installed_at))
    } else {
        m.insert(name, e)
    }
}

// ---------------------------------------------------------------------------
// Records kept sorted by name
// ---------------------------------------------------------------------------

/// The map a sequence of `(name, record)` pairs describes.
pub open spec fn pairs_map<V>(s: Seq<(String, V)>) -> Map<Seq<char>, V>
    decreases s.len(),
{
    if s.len() == 0 {
        Map::empty()
    } else {
        pairs_map(s.drop_last()).insert(s.last().0@, s.last().1)
    }
}

/// Names strictly increase along the sequence.
pub open spec fn strictly_sorted<V>(s: Seq<(String, V)>) -> bool {
    forall|i: int, j: int| 0 <= i < j < s.len() ==> lex_lt(#[trigger] s[i].0@, #[trigger] s[j].0@)
}

pub proof fn lemma_pairs_map_dom<V>(s: Seq<(String, V)>, k: Seq<char>)
    ensures
        pairs_map(s).contains_key(k) <==> exists|i: int| 0 <= i < s.len() && #[trigger] s[i].0@ == k,
    decreases s.len(),
{
    if s.len() > 0 {
        let t = s.drop_last();
        lemma_pairs_map_dom(t, k);
        if pairs_map(s).contains_key(k) && k != s.last().0@ {
            let i = choose|i: int| 0 <= i < t.len() && #[trigger] t[i].0@ == k;
            assert(s[i].0@ == k);
        }
        if exists|i: int| 0 <= i < s.len() && #[trigger] s[i].0@ == k {
            let i = choose|i: int| 0 <= i < s.len() && #[trigger] s[i].0@ == k;
            if i < s.len() - 1 {
                assert(t[i].0@ == k);
            }
        }
    }
}

pub proof fn lemma_pairs_map_value<V>(s: Seq<(String, V)>, i: int)
    requires
        0 <= i < s.len(),
        strictly_sorted(s),
    ensures
        pairs_map(s).contains_key(s[i].0@),
        pairs_map(s)[s[i].0@] == s[i].1,
    decreases s.len(),
{
    let t = s.drop_last();
    if i < s.len() - 1 {
        assert(strictly_sorted(t)) by {
            assert forall|a: int, b: int| 0 <= a < b < t.len() implies lex_lt(#[trigger] t[a].0@, #[trigger] t[b].0@) by {
                assert(t[a] == s[a] && t[b] == s[b]);
            }
        }
        lemma_pairs_map_value(t, i);
        assert(t[i] == s[i]);
        assert(lex_lt(s[i].0@, s[s.len() - 1].0@));
        lemma_lex_trichotomy(s[i].0@, s[s.len() - 1].0@);
    }
}

proof fn lemma_sorted_absent<V>(s: Seq<(String, V)>, k: Seq<char>, j: int)
    requires
        strictly_sorted(s),
        0 <= j <= s.len(),
        forall|m: int| 0 <= m < j ==> lex_lt(#[trigger] s[m].0@, k),
        j < s.len() ==> lex_lt(k, s[j].0@),
    ensures
        forall|m: int| j <= m < s.len() ==> lex_lt(k, #[trigger] s[m].0@),
        !pairs_map(s).contains_key(k),
{
    assert forall|m: int| j <= m < s.len() implies lex_lt(k, #[trigger] s[m].0@) by {
        if m > j {
            lemma_lex_transitive(k, s[j].0@, s[m].0@);
        }
    }
    lemma_pairs_map_dom(s, k);
    if pairs_map(s).contains_key(k) {
        let i = choose|i: int| 0 <= i < s.len() && #[trigger] s[i].0@ == k;
        lemma_lex_irreflexive(k);
    }
}

/// The map of a sorted sequence is determined key by key.
proof fn lemma_pairs_map_ext<V>(s: Seq<(String, V)>, m: Map<Seq<char>, V>)
    requires
        strictly_sorted(s),
        forall|k: Seq<char>| m.contains_key(k) <==> exists|i: int| 0 <= i < s.len() && #[trigger] s[i].0@ == k,
        forall|i: int| 0 <= i < s.len() ==> m[#[trigger] s[i].0@] == s[i].1,
    ensures
        pairs_map(s) == m,
{
    assert forall|k: Seq<char>| #[trigger] pairs_map(s).contains_key(k) <==> m.contains_key(k) by {
        lemma_pairs_map_dom(s, k);
    }
    assert forall|k: Seq<char>| #[trigger] pairs_map(s).contains_key(k) implies pairs_map(s)[k] == m[k] by {
        lemma_pairs_map_dom(s, k);
        let i = choose|i: int| 0 <= i < s.len() && #[trigger] s[i].0@ == k;
        lemma_pairs_map_value(s, i);
    }
    assert(pairs_map(s) =~= m);
}

/// The installed skills' records, kept sorted by name with one record per name.
pub struct SkillEntries {
    entries: Vec<(String, SkillLockEntry)>,
}

impl View for SkillEntries {
    type V = Map<Seq<char>, SkillLockEntry>;

    closed spec fn view(&self) -> Map<Seq<char>, SkillLockEntry> {
        pairs_map(self.entries@)
    }
}

impl SkillEntries {
    /// Names are strictly increasing.
    pub closed spec fn wf(&self) -> bool {
        strictly_sorted(self.entries@)
    }

    /// The records in name order.
    pub closed spec fn pairs(&self) -> Seq<(String, SkillLockEntry)> {
        self.entries@
    }

    pub proof fn lemma_view(&self)
        requires
            self.wf(),
        ensures
            strictly_sorted(self.pairs()),
            self@ == pairs_map(self.pairs()),
    {
    }

    /// No records.
    pub fn new() -> (r: SkillEntries)
        ensures
            r.wf(),
            r@ == Map::<Seq<char>, SkillLockEntry>::empty(),
            r.pairs().len() == 0,
    {
        SkillEntries { entries: Vec::new() }
    }

    /// Number of records.
    pub fn len(&self) -> (r: usize)
        requires
            self.wf(),
        ensures
            r == self@.dom().len(),
            r == self.pairs().len(),
    {
        proof {
            self.lemma_dom_len();
        }
        self.entries.len()
    }

    proof fn lemma_dom_len(&self)
        requires
            self.wf(),
        ensures
            self@.dom().len() == self.entries@.len(),
            self@.dom().finite(),
    {
        lemma_sorted_dom_len(self.entries@);
    }

    /// Whether there are no records.
    pub fn is_empty(&self) -> (r: bool)
        requires
            self.wf(),
        ensures
            r == (self@.dom().len() == 0),
            r == (self.pairs().len() == 0),
    {
        self.len() == 0
    }

    /// The record at position `i` in name order.
    pub fn pair_at(&self, i: usize) -> (r: &(String, SkillLockEntry))
        requires
            i < self.pairs().len(),
        ensures
            *r == self.pairs()[i as int],
    {
        &self.entries[i]
    }

    /// The names, in order.
    pub fn keys(&self) -> (r: Vec<String>)
        ensures
            r@.len() == self.pairs().len(),
            forall|i: int| 0 <= i < r@.len() ==> #[trigger] r@[i]@ == self.pairs()[i].0@,
    {
        let mut r: Vec<String> = Vec::new();
        let mut i: usize = 0;
        while i < self.entries.len()
            invariant
                i <= self.entries@.len(),
                r@.len() == i,
                forall|j: int| 0 <= j < i ==> #[trigger] r@[j]@ == self.entries@[j].0@,
            decreases self.entries@.len() - i,
        {
            r.push(self.entries[i].0.clone());
            i = i + 1;
        }
        r
    }

    /// Position of `name`, if recorded.
    fn position(&self, name: &str) -> (r: Option<usize>)
        requires
            self.wf(),
        ensures
            match r {
                Some(i) => i < self.entries@.len() && self.entries@[i as int].0@ == name@,
                None => !self@.contains_key(name@),
            },
    {
        let mut i: usize = 0;
        while i < self.entries.len()
            invariant
                i <= self.entries@.len(),
                forall|j: int| 0 <= j < i ==> #[trigger] self.entries@[j].0@ != name@,
            decreases self.entries@.len() - i,
        {
            if eq_str(self.entries[i].0.as_str(), name) {
                return Some(i);
            }
            i = i + 1;
        }
        proof {
            lemma_pairs_map_dom(self.entries@, name@);
        }
        None
    }

    /// Look up a skill's record.
    pub fn get(&self, name: &str) -> (r: Option<&SkillLockEntry>)
        requires
            self.wf(),
        ensures
            match r {
                Some(e) => self@.contains_key(name@) && *e == self@[name@],
                None => !self@.contains_key(name@),
            },
    {
        match self.position(name) {
            Some(i) => {
                proof {
                    lemma_pairs_map_value(self.entries@, i as int);
                }
                Some(&self.entries[i].1)
            },
            None => None,
        }
    }

    /// Whether a record exists for `name`.
    pub fn contains(&self, name: &str) -> (r: bool)
        requires
            self.wf(),
        ensures
            r == self@.contains_key(name@),
    {
        match self.position(name) {
            Some(i) => {
                proof {
                    lemma_pairs_map_value(self.entries@, i as int);
                }
                true
            },
            None => false,
        }
    }

    /// Record `entry` under `name`, replacing any record of that name.
    pub fn insert(&mut self, name: &str, entry: SkillLockEntry)
        requires
            old(self).wf(),
        ensures
            final(self).wf(),
            final(self)@ == old(self)@.insert(name@, entry),
    {
        let ghost s = self.entries@;
        let mut j: usize = 0;
        while j < self.entries.len() && lex_less_str(self.entries[j].0.as_str(), name)
            invariant
                s == self.entries@,
                strictly_sorted(s),
                j <= s.len(),
                forall|m: int| 0 <= m < j ==> lex_lt(#[trigger] s[m].0@, name@),
            decreases s.len() - j,
        {
            j = j + 1;
        }
        if j < self.entries.len() && eq_str(self.entries[j].0.as_str(), name) {
            let key = self.entries[j].0.clone();
            self.entries.remove(j);
            self.entries.insert(j, (key, entry));
            proof {
                let t = self.entries@;
                assert(t =~= s.update(j as int, (s[j as int].0, entry)));
                assert(strictly_sorted(t)) by {
                    assert forall|a: int, b: int| 0 <= a < b < t.len() implies lex_lt(#[trigger] t[a].0@, #[trigger] t[b].0@) by {
                        assert(t[a].0 == s[a].0 && t[b].0 == s[b].0);
                    }
                }
                let m = pairs_map(s).insert(name@, entry);
                assert forall|k: Seq<char>| m.contains_key(k) <==> exists|i: int| 0 <= i < t.len() && #[trigger] t[i].0@ == k by {
                    lemma_pairs_map_dom(s, k);
                    if k == name@ {
                        assert(t[j as int].0@ == k);
                    } else if m.contains_key(k) {
                        let i = choose|i: int| 0 <= i < s.len() && #[trigger] s[i].0@ == k;
                        assert(t[i].0@ == k);
                    } else if exists|i: int| 0 <= i < t.len() && #[trigger] t[i].0@ == k {
                        let i = choose|i: int| 0 <= i < t.len() && #[trigger] t[i].0@ == k;
                        assert(s[i].0@ == k);
                    }
                }
                assert forall|i: int| 0 <= i < t.len() implies m[#[trigger] t[i].0@] == t[i].1 by {
                    if i != j {
                        lemma_pairs_map_value(s, i);
                        lemma_lex_trichotomy(s[i].0@, s[j as int].0@);
                    }
                }
                lemma_pairs_map_ext(t, m);
            }
        } else {
            proof {
                if j < s.len() {
                    lemma_lex_trichotomy(s[j as int].0@, name@);
                }
                lemma_sorted_absent(s, name@, j as int);
            }
            let key = string_of(&chars_of(name));
            self.entries.insert(j, (key, entry));
            proof {
                let t = self.entries@;
                assert(t =~= s.insert(j as int, (key, entry)));
                assert(strictly_sorted(t)) by {
                    assert forall|a: int, b: int| 0 <= a < b < t.len() implies lex_lt(#[trigger] t[a].0@, #[trigger] t[b].0@) by {
                        if b < j {
                            assert(t[a] == s[a] && t[b] == s[b]);
                        } else if b == j {
                            assert(t[a] == s[a]);
                        } else if a < j {
                            assert(t[a] == s[a] && t[b] == s[b - 1]);
                            lemma_lex_transitive(s[a].0@, name@, s[b - 1].0@);
                        } else if a == j {
                            assert(t[b] == s[b - 1]);
                        } else {
                            assert(t[a] == s[a - 1] && t[b] == s[b - 1]);
                        }
                    }
                }
                let m = pairs_map(s).insert(name@, entry);
                assert forall|k: Seq<char>| m.contains_key(k) <==> exists|i: int| 0 <= i < t.len() && #[trigger] t[i].0@ == k by {
                    lemma_pairs_map_dom(s, k);
                    if k == name@ {
                        assert(t[j as int].0@ == k);
                    } else if m.contains_key(k) {
                        let i = choose|i: int| 0 <= i < s.len() && #[trigger] s[i].0@ == k;
                        if i < j {
                            assert(t[i].0@ == k);
                        } else {
                            assert(t[i + 1].0@ == k);
                        }
                    } else if exists|i: int| 0 <= i < t.len() && #[trigger] t[i].0@ == k {
                        let i = choose|i: int| 0 <= i < t.len() && #[trigger] t[i].0@ == k;
                        if i < j {
                            assert(s[i].0@ == k);
                        } else {
                            assert(s[i - 1].0@ == k);
                        }
                    }
                }
                assert forall|i: int| 0 <= i < t.len() implies m[#[trigger] t[i].0@] == t[i].1 by {
                    if i < j {
                        lemma_pairs_map_value(s, i);
                        lemma_lex_trichotomy(s[i].0@, name@);
                    } else if i > j {
                        lemma_pairs_map_value(s, i - 1);
                        lemma_lex_trichotomy(s[i - 1].0@, name@);
                    }
                }
                lemma_pairs_map_ext(t, m);
            }
        }
    }

    /// Drop the record for `name`, reporting whether one existed.
    pub fn remove(&mut self, name: &str) -> (r: bool)
        requires
            old(self).wf(),
        ensures
            final(self).wf(),
            r == old(self)@.contains_key(name@),
            final(self)@ == old(self)@.remove(name@),
    {
        let ghost s = self.entries@;
        match self.position(name) {
            None => {
                proof {
                    assert(pairs_map(s).remove(name@) =~= pairs_map(s));
                }
                false
            },
            Some(j) => {
                self.entries.remove(j);
                proof {
                    lemma_pairs_map_value(s, j as int);
                    let t = self.entries@;
                    assert(t =~= s.remove(j as int));
                    assert(strictly_sorted(t)) by {
                        assert forall|a: int, b: int| 0 <= a < b < t.len() implies lex_lt(#[trigger] t[a].0@, #[trigger] t[b].0@) by {
                            if b < j {
                                assert(t[a] == s[a] && t[b] == s[b]);
                            } else if a < j {
                                assert(t[a] == s[a] && t[b] == s[b + 1]);
                            } else {
                                assert(t[a] == s[a + 1] && t[b] == s[b + 1]);
                            }
                        }
                    }
                    let m = pairs_map(s).remove(name@);
                    assert forall|k: Seq<char>| m.contains_key(k) <==> exists|i: int| 0 <= i < t.len() && #[trigger] t[i].0@ == k by {
                        lemma_pairs_map_dom(s, k);
                        if m.contains_key(k) {
                            let i = choose|i: int| 0 <= i < s.len() && #[trigger] s[i].0@ == k;
                            if i < j {
                                assert(t[i].0@ == k);
                            } else {
                                assert(i != j);
                                assert(t[i - 1].0@ == k);
                            }
                        } else if exists|i: int| 0 <= i < t.len() && #[trigger] t[i].0@ == k {
                            let i = choose|i: int| 0 <= i < t.len() && #[trigger] t[i].0@ == k;
                            if i < j {
                                assert(s[i].0@ == k);
                                lemma_lex_trichotomy(s[i].0@, s[j as int].0@);
                            } else {
                                assert(s[i + 1].0@ == k);
                                lemma_lex_trichotomy(s[j as int].0@, s[i + 1].0@);
                            }
                        }
                    }
                    assert forall|i: int| 0 <= i < t.len() implies m[#[trigger] t[i].0@] == t[i].1 by {
                        if i < j {
                            lemma_pairs_map_value(s, i);
                            lemma_lex_trichotomy(s[i].0@, s[j as int].0@);
                        } else {
                            lemma_pairs_map_value(s, i + 1);
                            lemma_lex_trichotomy(s[j as int].0@, s[i + 1].0@);
                        }
                    }
                    lemma_pairs_map_ext(t, m);
                }
                true
            },
        }
    }
}

proof fn lemma_sorted_dom_len<V>(s: Seq<(String, V)>)
    requires
        strictly_sorted(s),
    ensures
        pairs_map(s).dom().finite(),
        pairs_map(s).dom().len() == s.len(),
    decreases s.len(),
{
    if s.len() > 0 {
        let t = s.drop_last();
        assert(strictly_sorted(t)) by {
            assert forall|a: int, b: int| 0 <= a < b < t.len() implies lex_lt(#[trigger] t[a].0@, #[trigger] t[b].0@) by {
                assert(t[a] == s[a] && t[b] == s[b]);
            }
        }
        lemma_sorted_dom_len(t);
        lemma_pairs_map_dom(t, s.last().0@);
        if pairs_map(t).contains_key(s.last().0@) {
            let i = choose|i: int| 0 <= i < t.len() && #[trigger] t[i].0@ == s.last().0@;
            assert(lex_lt(s[i].0@, s[s.len() - 1].0@));
            lemma_lex_irreflexive(s.last().0@);
        }
    }
}

// ---------------------------------------------------------------------------
// The lock
// ---------------------------------------------------------------------------

/// The full lockfile contents.
pub struct SkillLock {
    /// Schema version.
    pub version: u32,
    /// Installed skills, keyed by installed skill name and kept sorted.
    pub skills: SkillEntries,
}

impl SkillLock {
    /// The records are kept sorted by name, one per name.
    pub open spec fn wf(&self) -> bool {
        self.skills.wf()
    }

    /// An empty lock at the current schema version.
    pub fn new() -> (r: SkillLock)
        ensures
            r.wf(),
            r.version == LOCK_VERSION,
            r.skills@ == Map::<Seq<char>, SkillLockEntry>::empty(),
    {
        SkillLock { version: LOCK_VERSION, skills: SkillEntries::new() }
    }

    /// Lockfile path for a scope root (the directory containing `skills/`).
    pub fn path_for(scope_root: &str) -> (r: String)
        ensures
            r@ == path_join(scope_root@, LOCK_FILE_NAME@),
    {
        crate::paths::join_str(scope_root, LOCK_FILE_NAME)
    }

    /// The lock to use given what was read from disk: a lock at the current
    /// schema version is kept, anything else (missing, unreadable, unparsable,
    /// or another version) yields an empty lock.
    pub fn from_loaded(loaded: Option<SkillLock>) -> (r: SkillLock)
        requires
            loaded matches Some(l) ==> l.wf(),
        ensures
            r.wf(),
            r.version == LOCK_VERSION,
            match loaded {
                Some(l) if l.version == LOCK_VERSION => r.skills@ == l.skills@,
                _ => r.skills@ == Map::<Seq<char>, SkillLockEntry>::empty(),
            },
    {
        match loaded {
            Some(l) => {
                if l.version == LOCK_VERSION {
                    l
                } else {
                    SkillLock::new()
                }
            },
            None => SkillLock::new(),
        }
    }

    /// Record an install or update, keeping the first install timestamp.
    pub fn upsert(&mut self, name: &str, entry: SkillLockEntry)
        requires
            old(self).wf(),
        ensures
            final(self).wf(),
            final(self).version == old(self).version,
            final(self).skills@ == upsert_map(old(self).skills@, name@, entry),
    {
        let mut entry = entry;
        match self.skills.get(name) {
            Some(existing) => {
                entry.installed_at = existing.installed_at.clone();
            },
            None => {},
        }
        self.skills.insert(name, entry);
    }

    /// Remove a skill's record, reporting whether one existed.
    pub fn remove(&mut self, name: &str) -> (r: bool)
        requires
            old(self).wf(),
        ensures
            final(self).wf(),
            final(self).version == old(self).version,
            r == old(self).skills@.contains_key(name@),
            final(self).skills@ == old(self).skills@.remove(name@),
    {
        self.skills.remove(name)
    }

    /// Look up a skill's record.
    pub fn get(&self, name: &str) -> (r: Option<&SkillLockEntry>)
        requires
            self.wf(),
        ensures
            match r {
                Some(e) => self.skills@.contains_key(name@) && *e == self.skills@[name@],
                None => !self.skills@.contains_key(name@),
            },
    {
        self.skills.get(name)
    }

    /// Whether a skill is tracked as marketplace-installed.
    pub fn contains(&self, name: &str) -> (r: bool)
        requires
            self.wf(),
        ensures
            r == self.skills@.contains_key(name@),
    {
        self.skills.contains(name)
    }
}

impl Default for SkillLock {
    fn default() -> (r: SkillLock)
        ensures
            r.wf(),
            r.version == LOCK_VERSION,
            r.skills@ == Map::<Seq<char>, SkillLockEntry>::empty(),
    {
        SkillLock::new()
    }
}

// ---------------------------------------------------------------------------
// Laws
// ---------------------------------------------------------------------------

/// After recording `e` under `name`, looking `name` up gives `e`, except that
/// the first-install timestamp of an earlier record of that name is kept.
pub proof fn law_get_after_upsert(m: Map<Seq<char>, SkillLockEntry>, name: Seq<char>, e: SkillLockEntry)
    ensures
        upsert_map(m, name, e).contains_key(name),
        upsert_map(m, name, e)[name] == (if m.contains_key(name) {
            with_installed_at(e, m[name].installed_at)
        } else {
            e
        }),
{
}

/// Recording one skill leaves every other skill's record as it was.
pub proof fn law_upsert_leaves_others(
    m: Map<Seq<char>, SkillLockEntry>,
    name: Seq<char>,
    e: SkillLockEntry,
    other: Seq<char>,
)
    requires
        other != name,
    ensures
        upsert_map(m, name, e).contains_key(other) == m.contains_key(other),
        m.contains_key(other) ==> upsert_map(m, name, e)[other] == m[other],
{
}

/// Recording twice keeps the timestamp of the first install and the rest of
/// the latest record.
pub proof fn law_upsert_twice_keeps_first_install(
    m: Map<Seq<char>, SkillLockEntry>,
    name: Seq<char>,
    first: SkillLockEntry,
    second: SkillLockEntry,
)
    requires
        !m.contains_key(name),
    ensures
        upsert_map(upsert_map(m, name, first), name, second)[name] == with_installed_at(
            second,
            first.installed_at,
        ),
{
}

/// After removing a skill's record it is no longer tracked, and removing it
/// again reports that nothing was there.
pub proof fn law_remove_untracks(m: Map<Seq<char>, SkillLockEntry>, name: Seq<char>)
    ensures
        !m.remove(name).contains_key(name),
        !m.remove(name).remove(name).contains_key(name),
        m.remove(name).remove(name) == m.remove(name),
{
    assert(m.remove(name).remove(name) =~= m.remove(name));
}

/// The records are kept in strictly increasing name order, one per name.
pub proof fn law_records_sorted_and_unique(entries: SkillEntries)
    requires
        entries.wf(),
    ensures
        forall|i: int, j: int|
            0 <= i < j < entries.pairs().len() ==> lex_lt(
                #[trigger] entries.pairs()[i].0@,
                #[trigger] entries.pairs()[j].0@,
            ) && entries.pairs()[i].0@ != entries.pairs()[j].0@,
        forall|i: int| 0 <= i < entries.pairs().len() ==> #[trigger] entries@[entries.pairs()[i].0@] == entries.pairs()[i].1,
{
    assert forall|i: int, j: int| 0 <= i < j < entries.pairs().len() implies lex_lt(
        #[trigger] entries.pairs()[i].0@,
        #[trigger] entries.pairs()[j].0@,
    ) && entries.pairs()[i].0@ != entries.pairs()[j].0@ by {
        lemma_lex_trichotomy(entries.pairs()[i].0@, entries.pairs()[j].0@);
    }
    assert forall|i: int| 0 <= i < entries.pairs().len() implies #[trigger] entries@[entries.pairs()[i].0@] == entries.pairs()[i].1 by {
        lemma_pairs_map_value(entries.pairs(), i);
    }
}

// ---------------------------------------------------------------------------
// Content hashing
// ---------------------------------------------------------------------------

/// The SHA-256 digest of a byte string.
pub uninterp spec fn sha256_digest(data: Seq<u8>) -> Seq<u8>;

/// `sha2::Sha256::digest`: the SHA-256 digest of `data`, which is 32 bytes
/// long. What the digest is, is named and not stated.
#[verifier::external_body]
fn sha256(data: &[u8]) -> (r: Vec<u8>)
    ensures
        r@ == sha256_digest(data@),
        r@.len() == 32,
{
    sha2::Sha256::digest(data).to_vec()
}

/// The low `k` bytes of `n`, least significant first.
pub open spec fn le_bytes(n: nat, k: nat) -> Seq<u8>
    decreases k,
{
    if k == 0 {
        Seq::empty()
    } else {
        seq![(n % 256) as u8] + le_bytes(n / 256, (k - 1) as nat)
    }
}

/// A file as the hash sees it: its path with `\` read as `/`, and both the
/// path's UTF-8 bytes and the contents preceded by their length as eight
/// little-endian bytes.
pub open spec fn entry_frame(path: Seq<char>, contents: Seq<u8>) -> Seq<u8> {
    let norm = encode_utf8(replace_char(path, '\\', '/'));
    le_bytes(norm.len(), 8) + norm + le_bytes(contents.len(), 8) + contents
}

/// The frames of the entries, in order, one after another.
pub open spec fn frames(entries: Seq<(Seq<char>, Seq<u8>)>) -> Seq<u8>
    decreases entries.len(),
{
    if entries.len() == 0 {
        Seq::empty()
    } else {
        frames(entries.drop_last()) + entry_frame(entries.last().0, entries.last().1)
    }
}

pub open spec fn entry_path(e: (Seq<char>, Seq<u8>)) -> Seq<char> {
    e.0
}

/// The message that is hashed: the entries sorted by path (a stable sort),
/// then framed.
pub open spec fn hash_input(entries: Seq<(Seq<char>, Seq<u8>)>) -> Seq<u8> {
    frames(sort_by_key(entries, |e: (Seq<char>, Seq<u8>)| entry_path(e)))
}

pub open spec fn hex_lower_digit(d: int) -> char {
    if d < 10 {
        (48 + d) as char
    } else {
        (87 + d) as char
    }
}

/// Lowercase hexadecimal, two digits per byte.
pub open spec fn hex_lower(bytes: Seq<u8>) -> Seq<char>
    decreases bytes.len(),
{
    if bytes.len() == 0 {
        Seq::empty()
    } else {
        hex_lower(bytes.drop_last()) + seq![
            hex_lower_digit(bytes.last() as int / 16),
            hex_lower_digit(bytes.last() as int % 16),
        ]
    }
}

pub open spec fn entry_views(files: Seq<(&str, &[u8])>) -> Seq<(Seq<char>, Seq<u8>)> {
    files.map_values(|e: (&str, &[u8])| (e.0@, e.1@))
}

fn le_bytes_exec(n: u64, k: u64) -> (r: Vec<u8>)
    ensures
        r@ == le_bytes(n as nat, k as nat),
    decreases k,
{
    if k == 0 {
        Vec::new()
    } else {
        let mut r: Vec<u8> = Vec::new();
        r.push((n % 256) as u8);
        let rest = le_bytes_exec(n / 256, k - 1);
        append_bytes(&mut r, &rest);
        r
    }
}

fn append_bytes(dst: &mut Vec<u8>, src: &[u8])
    ensures
        final(dst)@ == old(dst)@ + src@,
{
    let ghost start = dst@;
    let mut i: usize = 0;
    while i < src.len()
        invariant
            i <= src@.len(),
            dst@ == start + src@.subrange(0, i as int),
        decreases src@.len() - i,
    {
        dst.push(src[i]);
        i = i + 1;
        proof {
            assert(dst@ =~= start + src@.subrange(0, i as int));
        }
    }
    proof {
        assert(src@.subrange(0, src@.len() as int) =~= src@);
    }
}

fn hex_digit_exec(d: u8) -> (r: char)
    requires
        d < 16,
    ensures
        r == hex_lower_digit(d as int),
{
    let c: u8 = if d < 10 {
        48 + d
    } else {
        87 + d
    };
    c as char
}

/// A digest written as lowercase hexadecimal, two digits per byte.
pub fn digest_hex(bytes: &[u8]) -> (r: String)
    ensures
        r@ == hex_lower(bytes@),
{
    let mut v: Vec<char> = Vec::new();
    let mut i: usize = 0;
    while i < bytes.len()
        invariant
            i <= bytes@.len(),
            v@ == hex_lower(bytes@.subrange(0, i as int)),
        decreases bytes@.len() - i,
    {
        let b = bytes[i];
        v.push(hex_digit_exec(b / 16));
        v.push(hex_digit_exec(b % 16));
        proof {
            let s = bytes@.subrange(0, i + 1);
            assert(s.drop_last() =~= bytes@.subrange(0, i as int));
            assert(s.last() == b);
        }
        i = i + 1;
    }
    proof {
        assert(bytes@.subrange(0, bytes@.len() as int) =~= bytes@);
    }
    string_of(&v)
}

/// Appends the frame of one file.
fn push_frame(msg: &mut Vec<u8>, path: &str, contents: &[u8])
    ensures
        final(msg)@ == old(msg)@ + entry_frame(path@, contents@),
{
    let norm = string_of(&replace_char_exec(&chars_of(path), '\\', '/'));
    let nb = norm.as_str().as_bytes();
    let a = le_bytes_exec(nb.len() as u64, 8);
    append_bytes(msg, &a);
    append_bytes(msg, nb);
    let b = le_bytes_exec(contents.len() as u64, 8);
    append_bytes(msg, &b);
    append_bytes(msg, contents);
    proof {
        assert(le_bytes(nb@.len() as u64 as nat, 8) == le_bytes(nb@.len(), 8));
        assert(le_bytes(contents@.len() as u64 as nat, 8) == le_bytes(contents@.len(), 8));
    }
}

/// The message a set of files is hashed as: the files sorted by path, each
/// framed with its length-prefixed path and length-prefixed contents.
pub fn hash_message(files: &[(&str, &[u8])]) -> (r: Vec<u8>)
    ensures
        r@ == hash_input(entry_views(files@)),
{
    let ghost ev = entry_views(files@);
    let ghost key = |e: (Seq<char>, Seq<u8>)| entry_path(e);
    let mut order: Vec<usize> = Vec::new();
    let mut i: usize = 0;
    while i < files.len()
        invariant
            i <= files@.len(),
            ev == entry_views(files@),
            key == (|e: (Seq<char>, Seq<u8>)| entry_path(e)),
            forall|k: int| 0 <= k < order@.len() ==> order@[k] < files@.len(),
            order@.map_values(|k: usize| ev[k as int]) == sort_by_key(ev.subrange(0, i as int), key),
        decreases files@.len() - i,
    {
        let ghost ov = order@.map_values(|k: usize| ev[k as int]);
        let mut j: usize = 0;
        while j < order.len() && !lex_less_str(files[i].0, files[order[j]].0)
            invariant
                j <= order@.len(),
                i < files@.len(),
                ev == entry_views(files@),
                key == (|e: (Seq<char>, Seq<u8>)| entry_path(e)),
                forall|k: int| 0 <= k < order@.len() ==> order@[k] < files@.len(),
                ov == order@.map_values(|k: usize| ev[k as int]),
                forall|k: int| 0 <= k < j ==> !lex_lt(key(ev[i as int]), key(#[trigger] ov[k])),
            decreases order@.len() - j,
        {
            proof {
                assert(ov[j as int] == ev[order@[j as int] as int]);
            }
            j = j + 1;
        }
        proof {
            if j < order@.len() {
                assert(ov[j as int] == ev[order@[j as int] as int]);
            }
            lemma_key_pos_at(ov, ev[i as int], key, j as int);
            let s = ev.subrange(0, i + 1);
            assert(s.drop_last() =~= ev.subrange(0, i as int));
            assert(s.last() == ev[i as int]);
        }
        order.insert(j, i);
        proof {
            assert(order@.map_values(|k: usize| ev[k as int]) =~= ov.insert(j as int, ev[i as int]));
        }
        i = i + 1;
    }
    proof {
        assert(ev.subrange(0, files@.len() as int) =~= ev);
    }
    let ghost sorted = order@.map_values(|k: usize| ev[k as int]);
    let mut msg: Vec<u8> = Vec::new();
    let mut m: usize = 0;
    while m < order.len()
        invariant
            m <= order@.len(),
            ev == entry_views(files@),
            forall|k: int| 0 <= k < order@.len() ==> order@[k] < files@.len(),
            sorted == order@.map_values(|k: usize| ev[k as int]),
            msg@ == frames(sorted.subrange(0, m as int)),
        decreases order@.len() - m,
    {
        let k = order[m];
        push_frame(&mut msg, files[k].0, files[k].1);
        proof {
            let s = sorted.subrange(0, m + 1);
            assert(s.drop_last() =~= sorted.subrange(0, m as int));
            assert(s.last() == sorted[m as int]);
            assert(sorted[m as int] == ev[k as int]);
        }
        m = m + 1;
    }
    proof {
        assert(sorted.subrange(0, sorted.len() as int) =~= sorted);
    }
    msg
}

/// Hash a set of files into a stable content fingerprint: the lowercase hex
/// SHA-256 digest of their `hash_message`.
///
/// Paths are sorted and length-prefixed alongside their contents so that
/// renaming a file or moving content between files changes the hash, while
/// the order the files are given in does not.
pub fn hash_files(files: &[(&str, &[u8])]) -> (r: String)
    ensures
        r@ == hex_lower(sha256_digest(hash_input(entry_views(files@)))),
        r@.len() == 64,
{
    let msg = hash_message(files);
    let digest = sha256(msg.as_slice());
    let r = digest_hex(digest.as_slice());
    proof {
        lemma_hex_lower_len(digest@);
    }
    r
}

proof fn lemma_hex_lower_len(bytes: Seq<u8>)
    ensures
        hex_lower(bytes).len() == 2 * bytes.len(),
    decreases bytes.len(),
{
    if bytes.len() > 0 {
        lemma_hex_lower_len(bytes.drop_last());
    }
}

/// `chrono::Utc::now().to_rfc3339()`: the current time as an RFC 3339
/// timestamp. Nothing is stated of the text: it depends on the clock.
#[verifier::external_body]
pub fn now_timestamp() -> (r: String) {
    chrono::Utc::now().to_rfc3339()
}

// ---------------------------------------------------------------------------
// What the hash depends on
// ---------------------------------------------------------------------------

/// Within `s`, entries with the same path are the same entry.
pub open spec fn paths_determine_entries(s: Seq<(Seq<char>, Seq<u8>)>) -> bool {
    forall|u: (Seq<char>, Seq<u8>), v: (Seq<char>, Seq<u8>)|
        #![trigger s.contains(u), s.contains(v)]
        s.contains(u) && s.contains(v) && u.0 == v.0 ==> u == v
}

proof fn lemma_lex_le_antisymmetric(a: Seq<char>, b: Seq<char>)
    requires
        crate::order::lex_le(a, b),
        crate::order::lex_le(b, a),
    ensures
        a == b,
{
    lemma_lex_trichotomy(a, b);
}

/// Two sequences sorted by path, holding the same entries, in which a path
/// determines its entry, are the same sequence.
proof fn lemma_sorted_by_path_unique(x: Seq<(Seq<char>, Seq<u8>)>, y: Seq<(Seq<char>, Seq<u8>)>)
    requires
        is_sorted_by_key(x, |e: (Seq<char>, Seq<u8>)| entry_path(e)),
        is_sorted_by_key(y, |e: (Seq<char>, Seq<u8>)| entry_path(e)),
        x.to_multiset() == y.to_multiset(),
        paths_determine_entries(x),
    ensures
        x == y,
    decreases x.len(),
{
    broadcast use vstd::seq_lib::group_to_multiset_ensures;

    let key = |e: (Seq<char>, Seq<u8>)| entry_path(e);
    assert(x.len() == y.len()) by {
        assert(x.len() == x.to_multiset().len());
        assert(y.len() == y.to_multiset().len());
    }
    if x.len() == 0 {
        assert(x =~= y);
    } else {
        assert(x.contains(x[0]));
        assert(x.to_multiset().count(x[0]) > 0);
        assert(y.to_multiset().count(x[0]) > 0);
        assert(y.contains(x[0]));
        let k = choose|k: int| 0 <= k < y.len() && y[k] == x[0];
        assert(y.contains(y[0]));
        assert(y.to_multiset().count(y[0]) > 0);
        assert(x.to_multiset().count(y[0]) > 0);
        assert(x.contains(y[0]));
        let m = choose|m: int| 0 <= m < x.len() && x[m] == y[0];
        if k > 0 {
            assert(crate::order::lex_le(key(y[0]), key(y[k])));
        }
        if m > 0 {
            assert(crate::order::lex_le(key(x[0]), key(x[m])));
        }
        lemma_lex_irreflexive(x[0].0);
        lemma_lex_le_antisymmetric(x[0].0, y[0].0);
        assert(x[0] == y[0]);
        let xt = x.drop_first();
        let yt = y.drop_first();
        assert(x.remove(0) =~= xt);
        assert(y.remove(0) =~= yt);
        assert(xt.to_multiset() == yt.to_multiset());
        assert forall|i: int, j: int| 0 <= i < j < xt.len() implies crate::order::lex_le(
            key(#[trigger] xt[i]),
            key(#[trigger] xt[j]),
        ) by {
            assert(xt[i] == x[i + 1] && xt[j] == x[j + 1]);
        }
        assert forall|i: int, j: int| 0 <= i < j < yt.len() implies crate::order::lex_le(
            key(#[trigger] yt[i]),
            key(#[trigger] yt[j]),
        ) by {
            assert(yt[i] == y[i + 1] && yt[j] == y[j + 1]);
        }
        assert forall|u: (Seq<char>, Seq<u8>), v: (Seq<char>, Seq<u8>)|
            xt.contains(u) && xt.contains(v) && u.0 == v.0 implies u == v by {
            let i = choose|i: int| 0 <= i < xt.len() && xt[i] == u;
            let j = choose|j: int| 0 <= j < xt.len() && xt[j] == v;
            assert(x[i + 1] == u && x[j + 1] == v);
            assert(x.contains(u) && x.contains(v));
        }
        lemma_sorted_by_path_unique(xt, yt);
        assert(x =~= y) by {
            assert forall|i: int| 0 <= i < x.len() implies x[i] == y[i] by {
                if i > 0 {
                    assert(x[i] == xt[i - 1] && y[i] == yt[i - 1]);
                }
            }
        }
    }
}

/// The hash does not depend on the order the files come in: any two lists
/// of the same files, in which no path names two different contents, hash
/// the same message.
pub proof fn law_hash_ignores_file_order(a: Seq<(Seq<char>, Seq<u8>)>, b: Seq<(Seq<char>, Seq<u8>)>)
    requires
        a.to_multiset() == b.to_multiset(),
        paths_determine_entries(a),
    ensures
        hash_input(a) == hash_input(b),
{
    broadcast use vstd::seq_lib::group_to_multiset_ensures;

    let key = |e: (Seq<char>, Seq<u8>)| entry_path(e);
    let sa = sort_by_key(a, key);
    let sb = sort_by_key(b, key);
    lemma_sort_by_key_sorted(a, key);
    lemma_sort_by_key_sorted(b, key);
    lemma_sort_by_key_permutes(a, key);
    lemma_sort_by_key_permutes(b, key);
    assert forall|u: (Seq<char>, Seq<u8>), v: (Seq<char>, Seq<u8>)|
        sa.contains(u) && sa.contains(v) && u.0 == v.0 implies u == v by {
        assert(sa.to_multiset().count(u) > 0 && sa.to_multiset().count(v) > 0);
        assert(a.contains(u) && a.contains(v));
    }
    lemma_sorted_by_path_unique(sa, sb);
}

/// `256` to the power `k`.
pub open spec fn pow256(k: nat) -> nat
    decreases k,
{
    if k == 0 {
        1
    } else {
        256 * pow256((k - 1) as nat)
    }
}

proof fn lemma_le_bytes_len(n: nat, k: nat)
    ensures
        le_bytes(n, k).len() == k,
    decreases k,
{
    if k > 0 {
        lemma_le_bytes_len(n / 256, (k - 1) as nat);
    }
}

/// Little-endian bytes tell numbers below `256^k` apart.
proof fn lemma_le_bytes_injective(n: nat, m: nat, k: nat)
    requires
        n < pow256(k),
        m < pow256(k),
        le_bytes(n, k) == le_bytes(m, k),
    ensures
        n == m,
    decreases k,
{
    if k > 0 {
        let p = pow256((k - 1) as nat);
        let ln = le_bytes(n, k);
        let lm = le_bytes(m, k);
        assert(ln[0] == lm[0]);
        assert(ln[0] == (n % 256) as u8);
        assert(lm[0] == (m % 256) as u8);
        assert(n % 256 == m % 256);
        assert(ln.subrange(1, ln.len() as int) =~= le_bytes(n / 256, (k - 1) as nat));
        assert(lm.subrange(1, lm.len() as int) =~= le_bytes(m / 256, (k - 1) as nat));
        assert(n / 256 < p) by (nonlinear_arith)
            requires
                n < 256 * p,
        ;
        assert(m / 256 < p) by (nonlinear_arith)
            requires
                m < 256 * p,
        ;
        lemma_le_bytes_injective(n / 256, m / 256, (k - 1) as nat);
        vstd::arithmetic::div_mod::lemma_fundamental_div_mod(n as int, 256);
        vstd::arithmetic::div_mod::lemma_fundamental_div_mod(m as int, 256);
    }
}

proof fn lemma_pow256_8()
    ensures
        pow256(8) == 0x1_0000_0000_0000_0000,
{
    reveal_with_fuel(pow256, 9);
}

/// The frame of the first entry, then the frames of the rest.
proof fn lemma_frames_front(s: Seq<(Seq<char>, Seq<u8>)>)
    requires
        s.len() > 0,
    ensures
        frames(s) == entry_frame(s[0].0, s[0].1) + frames(s.drop_first()),
    decreases s.len(),
{
    if s.len() == 1 {
        assert(s.drop_first() =~= Seq::<(Seq<char>, Seq<u8>)>::empty());
        assert(s.drop_last() =~= Seq::<(Seq<char>, Seq<u8>)>::empty());
        assert(frames(s) =~= entry_frame(s[0].0, s[0].1) + frames(s.drop_first()));
    } else {
        let t = s.drop_last();
        lemma_frames_front(t);
        assert(s.drop_first().drop_last() =~= t.drop_first());
        assert(s.drop_first().last() == s.last());
        assert(t[0] == s[0]);
        assert(frames(s) =~= entry_frame(s[0].0, s[0].1) + frames(s.drop_first()));
    }
}

/// The bytes of an entry's path as the hash frames them.
pub open spec fn framed_path(e: (Seq<char>, Seq<u8>)) -> Seq<u8> {
    encode_utf8(replace_char(e.0, '\\', '/'))
}

/// An entry whose path and contents have lengths that fit in 64 bits.
pub open spec fn frame_fits(e: (Seq<char>, Seq<u8>)) -> bool {
    framed_path(e).len() < 0x1_0000_0000_0000_0000 && e.1.len() < 0x1_0000_0000_0000_0000
}

proof fn lemma_frame_len(e: (Seq<char>, Seq<u8>))
    ensures
        entry_frame(e.0, e.1).len() == 16 + framed_path(e).len() + e.1.len(),
{
    lemma_le_bytes_len(framed_path(e).len(), 8);
    lemma_le_bytes_len(e.1.len(), 8);
}

/// Framed messages can be read back: equal messages come from entries with
/// the same path bytes and the same contents, in the same order.
proof fn lemma_frames_injective(x: Seq<(Seq<char>, Seq<u8>)>, y: Seq<(Seq<char>, Seq<u8>)>)
    requires
        frames(x) == frames(y),
        forall|i: int| 0 <= i < x.len() ==> frame_fits(#[trigger] x[i]),
        forall|i: int| 0 <= i < y.len() ==> frame_fits(#[trigger] y[i]),
    ensures
        x.len() == y.len(),
        forall|i: int|
            0 <= i < x.len() ==> framed_path(#[trigger] x[i]) == framed_path(y[i]) && x[i].1 == y[i].1,
    decreases x.len(),
{
    if x.len() == 0 {
        if y.len() > 0 {
            lemma_frames_front(y);
            lemma_frame_len(y[0]);
        }
    } else {
        lemma_frames_front(x);
        lemma_frame_len(x[0]);
        if y.len() == 0 {
            assert(frames(y).len() == 0);
        } else {
            lemma_frames_front(y);
            lemma_frame_len(y[0]);
            lemma_pow256_8();
            let w = frames(x);
            let px = framed_path(x[0]);
            let py = framed_path(y[0]);
            let cx = x[0].1;
            let cy = y[0].1;
            lemma_le_bytes_len(px.len(), 8);
            lemma_le_bytes_len(py.len(), 8);
            lemma_le_bytes_len(cx.len(), 8);
            lemma_le_bytes_len(cy.len(), 8);
            let fx = entry_frame(x[0].0, x[0].1);
            let fy = entry_frame(y[0].0, y[0].1);
            assert(w.subrange(0, 8) =~= le_bytes(px.len(), 8));
            assert(w.subrange(0, 8) =~= le_bytes(py.len(), 8));
            lemma_le_bytes_injective(px.len(), py.len(), 8);
            let a: int = 8 + px.len() as int;
            assert(w.subrange(8, a) =~= px);
            assert(w.subrange(8, a) =~= py);
            assert(w.subrange(a, a + 8) =~= le_bytes(cx.len(), 8));
            assert(w.subrange(a, a + 8) =~= le_bytes(cy.len(), 8));
            lemma_le_bytes_injective(cx.len(), cy.len(), 8);
            assert(w.subrange(a + 8, a + 8 + cx.len()) =~= cx);
            assert(w.subrange(a + 8, a + 8 + cx.len()) =~= cy);
            assert(fx.len() == fy.len());
            assert(frames(x.drop_first()) =~= w.subrange(fx.len() as int, w.len() as int));
            assert(frames(y.drop_first()) =~= w.subrange(fy.len() as int, w.len() as int));
            let xt = x.drop_first();
            let yt = y.drop_first();
            assert forall|i: int| 0 <= i < xt.len() implies frame_fits(#[trigger] xt[i]) by {
                assert(xt[i] == x[i + 1]);
            }
            assert forall|i: int| 0 <= i < yt.len() implies frame_fits(#[trigger] yt[i]) by {
                assert(yt[i] == y[i + 1]);
            }
            lemma_frames_injective(xt, yt);
            assert forall|i: int| 0 <= i < x.len() implies framed_path(#[trigger] x[i]) == framed_path(
                y[i],
            ) && x[i].1 == y[i].1 by {
                if i > 0 {
                    assert(x[i] == xt[i - 1] && y[i] == yt[i - 1]);
                }
            }
        }
    }
}

/// An entry as the hash sees it: its path with `\` read as `/`, and its contents.
pub open spec fn hashed_entry(e: (Seq<char>, Seq<u8>)) -> (Seq<char>, Seq<u8>) {
    (replace_char(e.0, '\\', '/'), e.1)
}

/// The hashed message tells file lists apart: two lists hash the same
/// message only if, sorted by path, they hold the same paths (reading `\` as
/// `/`) with the same contents. So renaming a file, changing its contents or
/// moving content from one file to another changes the message.
pub proof fn law_hash_input_determines_files(a: Seq<(Seq<char>, Seq<u8>)>, b: Seq<(Seq<char>, Seq<u8>)>)
    requires
        hash_input(a) == hash_input(b),
        forall|i: int| 0 <= i < a.len() ==> frame_fits(#[trigger] a[i]),
        forall|i: int| 0 <= i < b.len() ==> frame_fits(#[trigger] b[i]),
    ensures
        sort_by_key(a, |e: (Seq<char>, Seq<u8>)| entry_path(e)).map_values(
            |e: (Seq<char>, Seq<u8>)| hashed_entry(e),
        ) == sort_by_key(b, |e: (Seq<char>, Seq<u8>)| entry_path(e)).map_values(
            |e: (Seq<char>, Seq<u8>)| hashed_entry(e),
        ),
{
    broadcast use vstd::seq_lib::group_to_multiset_ensures;

    let key = |e: (Seq<char>, Seq<u8>)| entry_path(e);
    let sa = sort_by_key(a, key);
    let sb = sort_by_key(b, key);
    lemma_sort_by_key_permutes(a, key);
    lemma_sort_by_key_permutes(b, key);
    assert forall|i: int| 0 <= i < sa.len() implies frame_fits(#[trigger] sa[i]) by {
        assert(sa.contains(sa[i]));
        assert(sa.to_multiset().count(sa[i]) > 0);
        assert(a.to_multiset().count(sa[i]) > 0);
        let j = choose|j: int| 0 <= j < a.len() && a[j] == sa[i];
        assert(frame_fits(a[j]));
    }
    assert forall|i: int| 0 <= i < sb.len() implies frame_fits(#[trigger] sb[i]) by {
        assert(sb.contains(sb[i]));
        assert(sb.to_multiset().count(sb[i]) > 0);
        assert(b.to_multiset().count(sb[i]) > 0);
        let j = choose|j: int| 0 <= j < b.len() && b[j] == sb[i];
        assert(frame_fits(b[j]));
    }
    lemma_frames_injective(sa, sb);
    let f = |e: (Seq<char>, Seq<u8>)| hashed_entry(e);
    assert forall|i: int| 0 <= i < sa.len() implies sa.map_values(f)[i] == sb.map_values(f)[i] by {
        vstd::utf8::encode_utf8_decode_utf8(replace_char(sa[i].0, '\\', '/'));
        vstd::utf8::encode_utf8_decode_utf8(replace_char(sb[i].0, '\\', '/'));
        assert(framed_path(sa[i]) == framed_path(sb[i]));
    }
    assert(sa.map_values(f) =~= sb.map_values(f));
}

} // verus!
