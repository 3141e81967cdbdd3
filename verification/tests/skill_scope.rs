use xai_grok_plugin_marketplace::skill_scope::{installed_names_from, SkillScopeKind, SkillScopeTarget};

#[test]
fn parses_scope_aliases() {
    assert_eq!(SkillScopeKind::parse("user"), Some(SkillScopeKind::User));
    assert_eq!(SkillScopeKind::parse("GLOBAL"), Some(SkillScopeKind::User));
    assert_eq!(
        SkillScopeKind::parse("project"),
        Some(SkillScopeKind::Project)
    );
    assert_eq!(
        SkillScopeKind::parse(" repo "),
        Some(SkillScopeKind::Project)
    );
    assert_eq!(
        SkillScopeKind::parse("local"),
        Some(SkillScopeKind::Project)
    );
    assert_eq!(SkillScopeKind::parse("nonsense"), None);
}

#[test]
fn scope_labels_are_stable() {
    assert_eq!(SkillScopeKind::User.as_str(), "user");
    assert_eq!(SkillScopeKind::Project.as_str(), "project");
    assert_eq!(SkillScopeKind::default(), SkillScopeKind::User);
}

#[test]
fn user_scope_lives_under_grok_home() {
    let target = SkillScopeTarget::user("/home/u/.grok");
    assert_eq!(target.kind(), SkillScopeKind::User);
    assert_eq!(target.root(), "/home/u/.grok");
    assert_eq!(target.skills_dir(), "/home/u/.grok/skills");
}

#[test]
fn project_scope_is_under_the_repository_root() {
    let target = SkillScopeTarget::project("/repo/crates/thing", Some("/repo"));
    assert_eq!(target.kind(), SkillScopeKind::Project);
    assert_eq!(target.root(), "/repo/.grok");
}

#[test]
fn project_scope_without_a_repository_is_under_cwd() {
    let target = SkillScopeTarget::project("/plain/dir", None);
    assert_eq!(target.root(), "/plain/dir/.grok");
}

#[test]
fn skill_dir_normalizes_names() {
    let target = SkillScopeTarget::user("/home/u/.grok");
    assert_eq!(
        target.skill_dir("Deploy To Prod").unwrap(),
        "/home/u/.grok/skills/deploy-to-prod"
    );
}

#[test]
fn skill_dir_rejects_traversal_attempts() {
    let target = SkillScopeTarget::user("/home/u/.grok");
    // Normalization turns separators into hyphens, so a traversal attempt can
    // never produce a path outside the skills directory.
    let resolved = target.skill_dir("../../etc/passwd").unwrap();
    assert!(resolved.starts_with("/home/u/.grok/skills"));
    assert_eq!(target.skill_dir(""), None);
    assert_eq!(target.skill_dir("!!!"), None);
}

#[test]
fn installed_names_keep_only_entries_with_skill_md() {
    let entries = vec![
        ("deploy".to_string(), true),
        ("alpha".to_string(), true),
        ("not-a-skill".to_string(), false),
    ];
    assert_eq!(installed_names_from(entries), vec!["alpha", "deploy"]);
}

#[test]
fn installed_names_of_nothing_is_empty() {
    assert!(installed_names_from(Vec::new()).is_empty());
}
