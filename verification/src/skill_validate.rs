//! Validate skill names, `SKILL.md` frontmatter results, and destination paths.
//!
//! A skill name becomes a directory name and a slash command, so it has to be
//! a safe slug; a `SKILL.md` without a usable name or description would install
//! as a skill the agent can never sensibly invoke.

use vstd::prelude::*;
use crate::paths::{is_absolute, is_absolute_exec, path_join, path_join_exec};
use crate::skill_source::keep_parts;
use crate::text::{
    chars_of, contains_char, contains_char_exec, find_pattern, find_pattern_exec, is_ascii_digit,
    is_ascii_lower, lower_char, lower_char_exec, replace_char, replace_char_exec, slice_chars,
    split_class, split_class_exec, string_of, trim, trim_class, trim_class_exec, trim_end_class, trim_end_class_exec, trim_ws, views,
    CharClass,
};

verus! {

/// Longest accepted skill name, matching the discovery-side limit.
pub const MAX_NAME_LEN: usize = 64;

/// A `SKILL.md` that passed validation.
#[derive(Debug, Clone, PartialEq, Eq)]
pub struct ValidSkill {
    /// Normalized skill name, used as the directory and command name.
    pub name: String,
    /// Description used for listings and for model-driven invocation.
    pub description: String,
}

// ---------------------------------------------------------------------------
// Names
// ---------------------------------------------------------------------------

/// The slug character a name character becomes: ASCII letters are lowercased,
/// digits kept, everything else turns into `-`.
pub open spec fn slug_char(c: char) -> char {
    let l = lower_char(c);
    if is_ascii_lower(l) || is_ascii_digit(l) {
        l
    } else {
        '-'
    }
}

/// Slug characters of `s` with runs of `-` collapsed to one.
pub open spec fn collapse_hyphens(s: Seq<char>) -> Seq<char>
    decreases s.len(),
{
    if s.len() == 0 {
        s
    } else {
        let p = collapse_hyphens(s.drop_last());
        let c = slug_char(s.last());
        if c == '-' && p.len() > 0 && p.last() == '-' {
            p
        } else {
            p.push(c)
        }
    }
}

/// The skill slug of a name: trimmed, slug characters, hyphen runs collapsed,
/// edge hyphens removed, cut to at most `MAX_NAME_LEN` characters, and a
/// hyphen that the cut leaves at the end removed too.
pub open spec fn normalize_spec(name: Seq<char>) -> Seq<char> {
    let t = trim_class(collapse_hyphens(trim(name)), CharClass::Exactly('-'));
    let capped = if t.len() > MAX_NAME_LEN {
        t.subrange(0, MAX_NAME_LEN as int)
    } else {
        t
    };
    trim_end_class(capped, CharClass::Exactly('-'))
}

pub open spec fn is_slug_char(c: char) -> bool {
    is_ascii_lower(c) || is_ascii_digit(c) || c == '-'
}

/// A valid skill slug.
pub open spec fn valid_name_spec(name: Seq<char>) -> bool {
    &&& name.len() > 0
    &&& vstd::utf8::encode_utf8(name).len() <= MAX_NAME_LEN
    &&& name[0] != '-'
    &&& name.last() != '-'
    &&& find_pattern(name, "--"@) < 0
    &&& forall|i: int| 0 <= i < name.len() ==> is_slug_char(#[trigger] name[i])
}

fn slug_char_exec(c: char) -> (r: char)
    ensures
        r == slug_char(c),
{
    let l = lower_char_exec(c);
    if ('a' <= l && l <= 'z') || ('0' <= l && l <= '9') {
        l
    } else {
        '-'
    }
}

/// Normalize a name into a skill slug.
///
/// Lowercase, every non-alphanumeric character becomes a hyphen, runs
/// collapse, edges trim, and the result is capped at `MAX_NAME_LEN`
/// characters without ending in a hyphen.
pub fn normalize_name(name: &str) -> (r: String)
    ensures
        r@ == normalize_spec(name@),
{
    let t = trim_ws(&chars_of(name));
    let mut out: Vec<char> = Vec::new();
    let mut i: usize = 0;
    while i < t.len()
        invariant
            i <= t@.len(),
            out@ == collapse_hyphens(t@.subrange(0, i as int)),
        decreases t@.len() - i,
    {
        proof {
            assert(t@.subrange(0, i + 1).drop_last() =~= t@.subrange(0, i as int));
        }
        let c = slug_char_exec(t[i]);
        if !(c == '-' && out.len() > 0 && out[out.len() - 1] == '-') {
            out.push(c);
        }
        i = i + 1;
    }
    proof {
        assert(t@.subrange(0, t@.len() as int) =~= t@);
    }
    let trimmed = trim_class_exec(&out, &CharClass::Exactly('-'));
    let capped = if trimmed.len() > MAX_NAME_LEN {
        slice_chars(&trimmed, 0, MAX_NAME_LEN)
    } else {
        trimmed
    };
    string_of(&trim_end_class_exec(&capped, &CharClass::Exactly('-')))
}

/// Whether a name is already a valid skill slug.
pub fn is_valid_name(name: &str) -> (r: bool)
    ensures
        r == valid_name_spec(name@),
{
    let v = chars_of(name);
    let mut i: usize = 0;
    while i < v.len()
        invariant
            v@ == name@,
            i <= v@.len(),
            forall|j: int| 0 <= j < i ==> is_slug_char(#[trigger] v@[j]),
        decreases v@.len() - i,
    {
        let c = v[i];
        if !(('a' <= c && c <= 'z') || ('0' <= c && c <= '9') || c == '-') {
            proof {
                assert(!is_slug_char(name@[i as int]));
            }
            return false;
        }
        i = i + 1;
    }
    proof {
        assert(vstd::utf8::is_ascii_chars(v@)) by {
            assert forall|j: int| 0 <= j < v@.len() implies (#[trigger] v@[j] as u32) < 128 by {
                assert(is_slug_char(v@[j]));
            }
        }
        vstd::utf8::is_ascii_chars_encode_utf8(v@);
    }
    if v.len() == 0 || v.len() > MAX_NAME_LEN {
        return false;
    }
    if v[0] == '-' || v[v.len() - 1] == '-' {
        return false;
    }
    if find_pattern_exec(&v, &chars_of("--")).is_some() {
        return false;
    }
    true
}

// ---------------------------------------------------------------------------
// Destination paths
// ---------------------------------------------------------------------------

/// `root` with each part pushed onto it in turn.
pub open spec fn push_parts(root: Seq<char>, parts: Seq<Seq<char>>) -> Seq<char>
    decreases parts.len(),
{
    if parts.len() == 0 {
        root
    } else {
        path_join(push_parts(root, parts.drop_last()), parts.last())
    }
}

/// `relative` joined under `root`, or `None` when it is empty, absolute, names
/// a parent directory, has a component with `:`, or names no component.
/// Backslashes count as separators.
pub open spec fn join_within_spec(root: Seq<char>, relative: Seq<char>) -> Option<Seq<char>> {
    let normalized = replace_char(relative, '\\', '/');
    let comps = split_class(normalized, CharClass::Exactly('/'));
    let parts = keep_parts(comps);
    if relative.len() == 0 || is_absolute(normalized) {
        None
    } else if exists|i: int| 0 <= i < comps.len() && comps[i] == ".."@ {
        None
    } else if exists|i: int| 0 <= i < parts.len() && contains_char(#[trigger] parts[i], ':') {
        None
    } else if parts.len() == 0 {
        None
    } else {
        Some(push_parts(root, parts))
    }
}

/// Join `relative` under `root`, rejecting anything that escapes it.
///
/// Purely lexical, so it works for paths that do not exist yet.
#[verifier::loop_isolation(false)]
pub fn join_within(root: &str, relative: &str) -> (r: Option<String>)
    ensures
        match r {
            Some(p) => join_within_spec(root@, relative@) == Some(p@),
            None => join_within_spec(root@, relative@) is None,
        },
{
    let rel = chars_of(relative);
    if rel.len() == 0 {
        return None;
    }
    let normalized = replace_char_exec(&rel, '\\', '/');
    if is_absolute_exec(&normalized) {
        return None;
    }
    let comps = split_class_exec(&normalized, &CharClass::Exactly('/'));
    let ghost cv = views(comps@);
    let dot = chars_of(".");
    let dotdot = chars_of("..");
    let mut result = chars_of(root);
    let mut depth: usize = 0;
    let ghost mut kept: Seq<Seq<char>> = Seq::empty();
    let mut k: usize = 0;
    while k < comps.len()
        invariant
            k <= comps@.len(),
            cv == views(comps@),
            kept == keep_parts(cv.subrange(0, k as int)),
            result@ == push_parts(root@, kept),
            depth == kept.len(),
            depth <= k,
            forall|j: int| 0 <= j < k ==> cv[j] != ".."@,
            forall|j: int| 0 <= j < kept.len() ==> !contains_char(#[trigger] kept[j], ':'),
        decreases comps@.len() - k,
    {
        proof {
            assert(cv.subrange(0, k + 1).drop_last() =~= cv.subrange(0, k as int));
            assert(cv.subrange(0, k + 1).last() == cv[k as int]);
            assert(cv[k as int] == comps@[k as int]@);
        }
        let part = &comps[k];
        if crate::text::eq_chars(part, &dotdot) {
            proof {
                assert(cv[k as int] == ".."@);
            }
            return None;
        }
        if part.len() > 0 && !crate::text::eq_chars(part, &dot) {
            if contains_char_exec(part, ':') {
                proof {
                    lemma_keep_parts_prefix(cv, k as int);
                    let p = keep_parts(cv);
                    assert(p[kept.len() as int] == cv[k as int]);
                    assert(contains_char(p[kept.len() as int], ':'));
                }
                return None;
            }
            result = path_join_exec(&result, part);
            depth = depth + 1;
            proof {
                let before = kept;
                kept = kept.push(cv[k as int]);
                assert(kept.drop_last() =~= before);
            }
        }
        k = k + 1;
    }
    proof {
        assert(cv.subrange(0, cv.len() as int) =~= cv);
    }
    if depth > 0 {
        Some(string_of(&result))
    } else {
        None
    }
}

/// The kept parts of a prefix are a prefix of the kept parts of the whole.
proof fn lemma_keep_parts_prefix(segs: Seq<Seq<char>>, k: int)
    requires
        0 <= k < segs.len(),
        segs[k].len() > 0,
        segs[k] != "."@,
    ensures
        keep_parts(segs).len() > keep_parts(segs.subrange(0, k)).len(),
        keep_parts(segs)[keep_parts(segs.subrange(0, k)).len() as int] == segs[k],
    decreases segs.len(),
{
    if k == segs.len() - 1 {
        assert(segs.drop_last() =~= segs.subrange(0, k));
    } else {
        let t = segs.drop_last();
        assert(t.subrange(0, k) =~= segs.subrange(0, k));
        lemma_keep_parts_prefix(t, k);
    }
}

// ---------------------------------------------------------------------------
// SKILL.md frontmatter
// ---------------------------------------------------------------------------

/// The frontmatter fields a `SKILL.md` parser reported.
#[derive(Debug, Clone, PartialEq, Eq)]
pub struct ParsedFrontmatter {
    /// The declared name, or the fallback name when the frontmatter has none.
    pub name: String,
    /// The declared description, possibly empty.
    pub description: String,
}

/// Why a `SKILL.md` frontmatter could not be parsed.
#[derive(Debug, Clone, PartialEq, Eq)]
pub enum FrontmatterError {
    NoFrontmatter,
    YamlError(String),
    InvalidName(String),
}

pub open spec fn frontmatter_error_message(e: FrontmatterError) -> Seq<char> {
    match e {
        FrontmatterError::NoFrontmatter => "SKILL.md has no YAML frontmatter"@,
        FrontmatterError::YamlError(msg) => "SKILL.md frontmatter is not valid YAML: "@ + msg@,
        FrontmatterError::InvalidName(name) => "SKILL.md declares an unusable name `"@ + name@ + "`"@,
    }
}

/// The description a skill gets: the trimmed frontmatter description, else the
/// body's first paragraph when it is not blank, else the skill's name.
pub open spec fn description_spec(
    declared: Seq<char>,
    body_paragraph: Option<Seq<char>>,
    name: Seq<char>,
) -> Seq<char> {
    if trim(declared).len() > 0 {
        trim(declared)
    } else {
        match body_paragraph {
            Some(p) => if trim(p).len() > 0 { p } else { name },
            None => name,
        }
    }
}

pub open spec fn validation_spec(
    parsed: Result<ParsedFrontmatter, FrontmatterError>,
    body_paragraph: Option<Seq<char>>,
) -> Result<(Seq<char>, Seq<char>), Seq<char>> {
    match parsed {
        Err(e) => Err(frontmatter_error_message(e)),
        Ok(p) => {
            let name = normalize_spec(p.name@);
            if !valid_name_spec(name) {
                Err("skill name `"@ + p.name@ + "` is not a usable slug"@)
            } else {
                Ok((name, description_spec(p.description@, body_paragraph, name)))
            }
        },
    }
}

pub open spec fn validation_view(r: Result<ValidSkill, String>) -> Result<(Seq<char>, Seq<char>), Seq<char>> {
    match r {
        Ok(v) => Ok((v.name@, v.description@)),
        Err(e) => Err(e@),
    }
}

fn concat3(a: &str, b: &str, c: &str) -> (r: String)
    ensures
        r@ == a@ + b@ + c@,
{
    let mut v = chars_of(a);
    crate::text::append_chars(&mut v, &chars_of(b));
    crate::text::append_chars(&mut v, &chars_of(c));
    string_of(&v)
}

/// Validate a parsed `SKILL.md`.
///
/// `body_paragraph` is the first prose paragraph of the body, used when the
/// frontmatter has no description. Failures carry a human-readable reason.
pub fn validate_parsed_skill(
    parsed: Result<ParsedFrontmatter, FrontmatterError>,
    body_paragraph: Option<String>,
) -> (r: Result<ValidSkill, String>)
    ensures
        validation_view(r) == validation_spec(parsed, crate::skill_source::opt_str_view(body_paragraph)),
{
    let p = match parsed {
        Err(FrontmatterError::NoFrontmatter) => {
            return Err(string_of(&chars_of("SKILL.md has no YAML frontmatter")));
        },
        Err(FrontmatterError::YamlError(msg)) => {
            let mut m = chars_of("SKILL.md frontmatter is not valid YAML: ");
            crate::text::append_chars(&mut m, &chars_of(msg.as_str()));
            return Err(string_of(&m));
        },
        Err(FrontmatterError::InvalidName(name)) => {
            return Err(concat3("SKILL.md declares an unusable name `", name.as_str(), "`"));
        },
        Ok(p) => p,
    };
    let name = normalize_name(p.name.as_str());
    if !is_valid_name(name.as_str()) {
        return Err(concat3("skill name `", p.name.as_str(), "` is not a usable slug"));
    }
    let declared = trim_ws(&chars_of(p.description.as_str()));
    let description = if declared.len() > 0 {
        string_of(&declared)
    } else {
        match body_paragraph {
            Some(text) => {
                if trim_ws(&chars_of(text.as_str())).len() > 0 {
                    text
                } else {
                    string_of(&chars_of(name.as_str()))
                }
            },
            None => string_of(&chars_of(name.as_str())),
        }
    };
    Ok(ValidSkill { name, description })
}

// ---------------------------------------------------------------------------
// Joined paths stay under their root
// ---------------------------------------------------------------------------

/// Pushing relative parts onto `root` keeps `root` as a prefix.
proof fn lemma_push_parts_prefix(root: Seq<char>, parts: Seq<Seq<char>>)
    requires
        forall|k: int| 0 <= k < parts.len() ==> !is_absolute(#[trigger] parts[k]),
    ensures
        crate::text::starts_with(push_parts(root, parts), root),
    decreases parts.len(),
{
    if parts.len() > 0 {
        let t = parts.drop_last();
        assert forall|k: int| 0 <= k < t.len() implies !is_absolute(#[trigger] t[k]) by {
            assert(t[k] == parts[k]);
        }
        lemma_push_parts_prefix(root, t);
        let b = push_parts(root, t);
        assert(!is_absolute(parts.last()));
        let r = path_join(b, parts.last());
        assert(r.subrange(0, b.len() as int) =~= b);
        assert(r.subrange(0, root.len() as int) =~= b.subrange(0, root.len() as int));
    } else {
        assert(root.subrange(0, root.len() as int) =~= root);
    }
}

/// Every path `join_within` produces lies under `root`: it is `root` with
/// one or more components pushed onto it, none of them empty, `.`, `..`, or
/// holding a separator.
pub proof fn law_joined_paths_stay_under_root(root: Seq<char>, relative: Seq<char>)
    requires
        join_within_spec(root, relative) is Some,
    ensures
        ({
            let parts = keep_parts(
                split_class(replace_char(relative, '\\', '/'), CharClass::Exactly('/')),
            );
            &&& join_within_spec(root, relative) == Some(push_parts(root, parts))
            &&& crate::text::starts_with(push_parts(root, parts), root)
            &&& parts.len() > 0
            &&& forall|k: int|
                0 <= k < parts.len() ==> (#[trigger] parts[k]).len() > 0 && parts[k] != "."@
                    && parts[k] != ".."@ && !contains_char(parts[k], '/')
        }),
{
    let n = replace_char(relative, '\\', '/');
    let comps = split_class(n, CharClass::Exactly('/'));
    let parts = keep_parts(comps);
    crate::text::lemma_split_pieces_outside_class(n, CharClass::Exactly('/'));
    crate::skill_source::lemma_keep_parts_from(comps);
    assert forall|k: int| 0 <= k < parts.len() implies (#[trigger] parts[k]).len() > 0 && parts[k]
        != "."@ && parts[k] != ".."@ && !contains_char(parts[k], '/') by {
        let j = choose|j: int| 0 <= j < comps.len() && comps[j] == parts[k];
        if contains_char(comps[j], '/') {
            let m = choose|m: int| 0 <= m < comps[j].len() && comps[j][m] == '/';
            assert(!crate::text::in_class(CharClass::Exactly('/'), comps[j][m]));
        }
    }
    assert forall|k: int| 0 <= k < parts.len() implies !is_absolute(#[trigger] parts[k]) by {
        assert(!contains_char(parts[k], '/'));
        if is_absolute(parts[k]) {
            assert(parts[k][0] == '/');
        }
    }
    lemma_push_parts_prefix(root, parts);
}

// ---------------------------------------------------------------------------
// Valid names are already normalized
// ---------------------------------------------------------------------------

/// A prefix of a valid name collapses to itself.
proof fn lemma_collapse_valid_prefix(n: Seq<char>, k: int)
    requires
        0 <= k <= n.len(),
        forall|i: int| 0 <= i < n.len() ==> is_slug_char(#[trigger] n[i]),
        forall|i: int| 0 <= i && i + 1 < n.len() ==> !(#[trigger] n[i] == '-' && n[i + 1] == '-'),
    ensures
        collapse_hyphens(n.subrange(0, k)) == n.subrange(0, k),
    decreases k,
{
    if k > 0 {
        let p = n.subrange(0, k);
        assert(p.drop_last() =~= n.subrange(0, k - 1));
        lemma_collapse_valid_prefix(n, k - 1);
        let c = n[k - 1];
        assert(is_slug_char(c));
        assert(slug_char(c) == c);
        if c == '-' && k - 1 > 0 {
            assert(n.subrange(0, k - 1).last() == n[k - 2]);
            assert(!(n[k - 2] == '-' && n[k - 1] == '-'));
        }
        assert(n.subrange(0, k - 1).push(c) =~= p);
    }
}

/// Normalizing a valid skill slug gives it back unchanged.
pub proof fn law_valid_names_are_normalized(name: Seq<char>)
    requires
        valid_name_spec(name),
    ensures
        normalize_spec(name) == name,
{
    let n = name;
    assert(!crate::text::is_ws(n[0]) && !crate::text::is_ws(n.last())) by {
        assert(is_slug_char(n[0]));
        assert(is_slug_char(n[n.len() - 1]));
    }
    assert(crate::text::trim_start_class(n, CharClass::Whitespace) == n);
    assert(trim(n) == n);
    crate::text::lemma_find_pattern(n, "--"@);
    reveal_strlit("--");
    assert forall|i: int| 0 <= i && i + 1 < n.len() implies !(#[trigger] n[i] == '-' && n[i + 1] == '-') by {
        if n[i] == '-' && n[i + 1] == '-' {
            assert(n.subrange(i, i + 2) =~= "--"@);
        }
    }
    lemma_collapse_valid_prefix(n, n.len() as int);
    assert(n.subrange(0, n.len() as int) =~= n);
    assert(collapse_hyphens(n) == n);
    assert(crate::text::trim_start_class(n, CharClass::Exactly('-')) == n);
    assert(crate::text::trim_end_class(n, CharClass::Exactly('-')) == n);
    assert(vstd::utf8::is_ascii_chars(n)) by {
        assert forall|i: int| 0 <= i < n.len() implies (#[trigger] n[i] as u32) < 128 by {
            assert(is_slug_char(n[i]));
        }
    }
    vstd::utf8::is_ascii_chars_encode_utf8(n);
}


// ---------------------------------------------------------------------------
// Normalized names are valid slugs
// ---------------------------------------------------------------------------

/// Slug characters only, and no two hyphens in a row.
pub open spec fn slug_body(s: Seq<char>) -> bool {
    &&& forall|i: int| 0 <= i < s.len() ==> is_slug_char(#[trigger] s[i])
    &&& forall|i: int| 0 <= i && i + 1 < s.len() ==> !(#[trigger] s[i] == '-' && s[i + 1] == '-')
}

proof fn lemma_collapse_is_slug_body(s: Seq<char>)
    ensures
        slug_body(collapse_hyphens(s)),
    decreases s.len(),
{
    if s.len() > 0 {
        let p = collapse_hyphens(s.drop_last());
        lemma_collapse_is_slug_body(s.drop_last());
        let c = slug_char(s.last());
        assert(is_slug_char(c));
        if !(c == '-' && p.len() > 0 && p.last() == '-') {
            let q = p.push(c);
            assert forall|i: int| 0 <= i < q.len() implies is_slug_char(#[trigger] q[i]) by {
                if i < p.len() {
                    assert(q[i] == p[i]);
                }
            }
            assert forall|i: int| 0 <= i && i + 1 < q.len() implies !(#[trigger] q[i] == '-' && q[i
                + 1] == '-') by {
                assert(q[i] == p[i]);
                if i + 1 < p.len() {
                    assert(q[i + 1] == p[i + 1]);
                    assert(!(p[i] == '-' && p[i + 1] == '-'));
                }
            }
        }
    }
}

proof fn lemma_slug_body_subrange(s: Seq<char>, a: int, b: int)
    requires
        slug_body(s),
        0 <= a <= b <= s.len(),
    ensures
        slug_body(s.subrange(a, b)),
{
    let t = s.subrange(a, b);
    assert forall|i: int| 0 <= i < t.len() implies is_slug_char(#[trigger] t[i]) by {
        assert(t[i] == s[a + i]);
    }
    assert forall|i: int| 0 <= i && i + 1 < t.len() implies !(#[trigger] t[i] == '-' && t[i + 1] == '-') by {
        assert(t[i] == s[a + i]);
        assert(t[i + 1] == s[a + i + 1]);
        assert(!(s[a + i] == '-' && s[a + i + 1] == '-'));
    }
}

proof fn lemma_trim_start_shape(s: Seq<char>, cls: CharClass) -> (k: int)
    ensures
        0 <= k <= s.len(),
        crate::text::trim_start_class(s, cls) == s.subrange(k, s.len() as int),
        k < s.len() ==> !crate::text::in_class(cls, s[k]),
    decreases s.len(),
{
    if s.len() > 0 && crate::text::in_class(cls, s[0]) {
        let k = lemma_trim_start_shape(s.drop_first(), cls);
        assert(s.drop_first().subrange(k, s.drop_first().len() as int) =~= s.subrange(k + 1, s.len() as int));
        assert(k + 1 < s.len() ==> s.drop_first()[k] == s[k + 1]);
        k + 1
    } else {
        assert(s.subrange(0, s.len() as int) =~= s);
        0
    }
}

proof fn lemma_trim_end_shape(s: Seq<char>, cls: CharClass) -> (k: int)
    ensures
        0 <= k <= s.len(),
        trim_end_class(s, cls) == s.subrange(0, k),
        k > 0 ==> !crate::text::in_class(cls, s[k - 1]),
    decreases s.len(),
{
    if s.len() > 0 && crate::text::in_class(cls, s.last()) {
        let k = lemma_trim_end_shape(s.drop_last(), cls);
        assert(s.drop_last().subrange(0, k) =~= s.subrange(0, k));
        assert(k > 0 ==> s.drop_last()[k - 1] == s[k - 1]);
        k
    } else {
        assert(s.subrange(0, s.len() as int) =~= s);
        s.len() as int
    }
}

/// Whatever name is given, its normalized form is either empty or a valid
/// skill slug: slug characters only, no hyphen at either edge, no two hyphens
/// in a row, and at most `MAX_NAME_LEN` bytes.
pub proof fn law_normalized_names_are_valid(name: Seq<char>)
    ensures
        normalize_spec(name).len() == 0 || valid_name_spec(normalize_spec(name)),
{
    let h = CharClass::Exactly('-');
    let c = collapse_hyphens(trim(name));
    lemma_collapse_is_slug_body(trim(name));
    let k1 = lemma_trim_start_shape(c, h);
    let t0 = crate::text::trim_start_class(c, h);
    lemma_slug_body_subrange(c, k1, c.len() as int);
    let k2 = lemma_trim_end_shape(t0, h);
    let t = trim_class(c, h);
    lemma_slug_body_subrange(t0, 0, k2);
    assert(t.len() > 0 ==> t[0] != '-') by {
        if t.len() > 0 {
            assert(t[0] == t0[0]);
            assert(t0[0] == c[k1]);
        }
    }
    let capped = if t.len() > MAX_NAME_LEN {
        t.subrange(0, MAX_NAME_LEN as int)
    } else {
        t
    };
    lemma_slug_body_subrange(t, 0, capped.len() as int);
    assert(capped =~= t.subrange(0, capped.len() as int));
    let k3 = lemma_trim_end_shape(capped, h);
    let r = trim_end_class(capped, h);
    assert(r == normalize_spec(name));
    lemma_slug_body_subrange(capped, 0, k3);
    if r.len() > 0 {
        assert(r[0] == capped[0]);
        assert(capped[0] == t[0]);
        assert(r.last() == capped[k3 - 1]);
        crate::text::lemma_find_pattern(r, "--"@);
        reveal_strlit("--");
        if find_pattern(r, "--"@) >= 0 {
            let i = find_pattern(r, "--"@);
            assert(r.subrange(i, i + 2)[0] == r[i]);
            assert(r.subrange(i, i + 2)[1] == r[i + 1]);
            assert(!(r[i] == '-' && r[i + 1] == '-'));
        }
        assert(vstd::utf8::is_ascii_chars(r)) by {
            assert forall|i: int| 0 <= i < r.len() implies (#[trigger] r[i] as u32) < 128 by {
                assert(is_slug_char(r[i]));
            }
        }
        vstd::utf8::is_ascii_chars_encode_utf8(r);
    }
}

} // verus!
