use xai_grok_plugin_marketplace::skill_cmd::{
    action_label, column_width, count_changed, describe_install_error, describe_registry_error, example_spec,
    names_to_update, not_tracked_message, preview, provenance_label, resolve_scope, scope_label,
    scopes_to_inspect, search_query, target_for, truncate, update_end, update_summary, ScopeContext,
    RemoveFailure, RemoveRun, UpdateEnd, DEFAULT_SEARCH_LIMIT, hash_prefix, listed_files, source_info,
    INFO_FILES_SHOWN, INFO_HASH_CHARS,
};
use xai_grok_plugin_marketplace::skill_source::{GitHost, SkillSource};
use xai_grok_plugin_marketplace::skill_install::{InstallAction, SkillInstallError};
use xai_grok_plugin_marketplace::skill_lock::{SkillLock, SkillLockEntry, SkillOrigin};
use xai_grok_plugin_marketplace::skill_registry::{RegistryError, RegistrySkill};
use xai_grok_plugin_marketplace::skill_scope::SkillScopeKind;

fn ctx() -> ScopeContext {
    ScopeContext {
        grok_home: "/home/u/.grok".to_string(),
        cwd: "/work/app".to_string(),
        repo_root: Some("/work".to_string()),
    }
}

fn entry() -> SkillLockEntry {
    SkillLockEntry {
        source: "o/r/x".to_string(),
        source_id: "o/r/x".to_string(),
        origin: SkillOrigin::Registry,
        registry_id: None,
        git_ref: None,
        commit: None,
        content_hash: "h".to_string(),
        registry_hash: None,
        installed_at: "t".to_string(),
        updated_at: "t".to_string(),
    }
}

#[test]
fn search_joins_multi_word_queries() {
    assert_eq!(search_query(&vec!["react".to_string(), "native".to_string()]), "react native");
    assert_eq!(DEFAULT_SEARCH_LIMIT, 20);
}

#[test]
fn resolve_scope_rejects_unknown_values() {
    assert!(resolve_scope("nonsense", &ctx()).is_err());
    assert!(resolve_scope("user", &ctx()).is_ok());
    assert!(resolve_scope("project", &ctx()).is_ok());
    assert_eq!(
        resolve_scope("nonsense", &ctx()).unwrap_err(),
        "unknown scope `nonsense` (expected `user` or `project`)"
    );
}

#[test]
fn target_for_user_scope_points_at_grok_home() {
    let target = target_for(SkillScopeKind::User, &ctx());
    assert_eq!(target.kind(), SkillScopeKind::User);
    assert!(target.skills_dir().ends_with("skills"));
    let project = target_for(SkillScopeKind::Project, &ctx());
    assert_eq!(project.root(), "/work/.grok");
}

#[test]
fn scopes_to_inspect_covers_both_scopes_by_default() {
    let both = scopes_to_inspect(None, &ctx()).unwrap();
    assert_eq!(both.len(), 2);
    let one = scopes_to_inspect(Some("user"), &ctx()).unwrap();
    assert_eq!(one.len(), 1);
    assert_eq!(one[0].kind(), SkillScopeKind::User);
    assert!(scopes_to_inspect(Some("bogus"), &ctx()).is_err());
}

#[test]
fn truncate_preserves_short_values_and_marks_long_ones() {
    assert_eq!(truncate("short", 10), "short");
    assert_eq!(truncate("abcdefghij", 5), "abcd…");
    // Multi-byte characters are counted, not sliced mid-codepoint.
    assert_eq!(truncate("日本語テキスト", 3), "日本…");
}

#[test]
fn truncate_to_nothing_leaves_the_marker() {
    assert_eq!(truncate("abc", 0), "…");
    assert_eq!(truncate("", 0), "");
}

#[test]
fn preview_caps_the_number_of_lines() {
    let long: String = (0..50)
        .map(|i| format!("line {i}\n"))
        .collect::<Vec<_>>()
        .join("");
    assert_eq!(preview(&long).lines().count(), 20);
}

#[test]
fn preview_keeps_short_files_whole() {
    assert_eq!(preview("a\r\nb\n\nc"), "a\nb\n\nc");
    assert_eq!(preview("one\n"), "one");
    assert_eq!(preview(""), "");
}

#[test]
fn scope_label_describes_the_search_area() {
    assert_eq!(scope_label(None), "any scope");
    assert_eq!(scope_label(Some("user")), "the user scope");
}

#[test]
fn example_spec_suggests_the_first_result() {
    assert_eq!(example_spec(&Vec::new()), "<owner>/<repo>/<skill>");
    let skill = RegistrySkill {
        id: "o/r/s".into(),
        slug: "s".into(),
        name: "S".into(),
        source: "o/r".into(),
        installs: 1,
    };
    assert_eq!(example_spec(&vec![skill]), "o/r/s");
}

#[test]
fn update_considers_tracked_skills_only() {
    let mut lock = SkillLock::new();
    lock.upsert("zeta", entry());
    lock.upsert("deploy-to-prod", entry());
    assert_eq!(names_to_update(&lock, Some("Deploy To Prod")), vec!["deploy-to-prod"]);
    assert!(names_to_update(&lock, Some("missing")).is_empty());
    assert_eq!(names_to_update(&lock, None), vec!["deploy-to-prod", "zeta"]);
}

#[test]
fn update_summary_counts_changes() {
    let actions = vec![InstallAction::Updated, InstallAction::Unchanged, InstallAction::Installed];
    assert_eq!(count_changed(&actions), 2);
    assert_eq!(update_summary(2, 3, false), "\n2 of 3 skill(s) changed.");
    assert_eq!(update_summary(0, 1, true), "\n0 of 1 skill(s) would change.");
    assert_eq!(
        not_tracked_message("x"),
        "`x` is not tracked as a marketplace install; run `grok skill list` to see what is"
    );
}

#[test]
fn listing_and_reporting_labels() {
    assert_eq!(provenance_label(Some("git"), Some("o/r")), "git: o/r");
    assert_eq!(provenance_label(None, Some("o/r")), "not installed from the marketplace");
    assert_eq!(action_label(InstallAction::Updated, true), "would install");
    assert_eq!(action_label(InstallAction::Updated, false), "updated");
}

#[test]
fn registry_failures_come_with_advice() {
    assert_eq!(
        describe_registry_error(&RegistryError::Transport("dns".into())),
        "could not reach the skill registry (dns). Check your network, or set GROK_SKILLS_REGISTRY_URL to a reachable mirror."
    );
    assert_eq!(
        describe_registry_error(&RegistryError::Status { status: 503, url: "u".into() }),
        "the skill registry is unavailable right now (HTTP 503). Try again shortly."
    );
    assert_eq!(
        describe_registry_error(&RegistryError::Status { status: 404, url: "u".into() }),
        "registry returned HTTP 404 for u"
    );
    assert_eq!(
        describe_install_error(&SkillInstallError::Registry(RegistryError::Transport("x".into()))),
        "could not reach the skill registry (x). Check your network, or set GROK_SKILLS_REGISTRY_URL to a reachable mirror."
    );
    assert_eq!(
        describe_install_error(&SkillInstallError::NotTracked("x".into())),
        "skill `x` was not installed from the marketplace, so it cannot be updated"
    );
}

#[test]
fn name_column_fits_the_widest_name_up_to_a_cap() {
    let names = vec!["ab".to_string(), "日本語".to_string(), "x".to_string()];
    assert_eq!(column_width(&names, 40), 3);
    assert_eq!(column_width(&names, 2), 2);
    assert_eq!(column_width(&Vec::new(), 40), 0);
}

#[test]
fn update_with_nothing_tracked_is_no_failure() {
    assert!(matches!(update_end(None, 0, 0), UpdateEnd::NothingToUpdate));
}

#[test]
fn update_of_an_untracked_name_fails_with_a_hint() {
    match update_end(Some("deploy"), 0, 0) {
        UpdateEnd::NotTracked(m) => assert_eq!(
            m,
            "`deploy` is not tracked as a marketplace install; run `grok skill list` to see what is"
        ),
        other => panic!("unexpected {other:?}"),
    }
}

#[test]
fn update_with_failures_reports_how_many() {
    match update_end(None, 5, 2) {
        UpdateEnd::Failed(m) => assert_eq!(m, "2 skill(s) failed to update"),
        other => panic!("unexpected {other:?}"),
    }
    match update_end(Some("deploy"), 1, 1) {
        UpdateEnd::Failed(m) => assert_eq!(m, "1 skill(s) failed to update"),
        other => panic!("unexpected {other:?}"),
    }
}

#[test]
fn update_without_failures_is_done() {
    assert!(matches!(update_end(None, 3, 0), UpdateEnd::Done));
    assert!(matches!(update_end(Some("deploy"), 1, 0), UpdateEnd::Done));
}

#[test]
fn removal_keeps_every_scope_it_removed_from() {
    let mut run = RemoveRun::new();
    run.step("user".to_string(), Ok("/home/u/.grok/skills/deploy".to_string()));
    run.step("project".to_string(), Err(SkillInstallError::NotInstalled("deploy".to_string())));
    run.step("local".to_string(), Err(SkillInstallError::Git("boom".to_string())));
    let removed = run.finish("deploy", None).unwrap();
    assert_eq!(removed, vec![("user".to_string(), "/home/u/.grok/skills/deploy".to_string())]);
}

#[test]
fn removal_reports_the_last_real_failure() {
    let mut run = RemoveRun::new();
    run.step("user".to_string(), Err(SkillInstallError::Git("first".to_string())));
    run.step("project".to_string(), Err(SkillInstallError::LocallyModified("deploy".to_string())));
    run.step("other".to_string(), Err(SkillInstallError::NotInstalled("deploy".to_string())));
    match run.finish("deploy", Some("user")) {
        Err(RemoveFailure::Failed(e)) => {
            assert_eq!(e, SkillInstallError::LocallyModified("deploy".to_string()))
        }
        other => panic!("unexpected {other:?}"),
    }
}

#[test]
fn removal_of_a_skill_no_scope_holds() {
    let mut run = RemoveRun::new();
    run.step("project".to_string(), Err(SkillInstallError::NotInstalled("deploy".to_string())));
    match run.finish("deploy", Some("project")) {
        Err(RemoveFailure::NotInstalled(m)) => assert_eq!(m, "`deploy` is not installed in the project scope"),
        other => panic!("unexpected {other:?}"),
    }
    match RemoveRun::new().finish("deploy", None) {
        Err(RemoveFailure::NotInstalled(m)) => assert_eq!(m, "`deploy` is not installed in any scope"),
        other => panic!("unexpected {other:?}"),
    }
}

#[test]
fn info_of_a_registry_source_names_its_id() {
    let info = source_info(&SkillSource::Registry { source: "vercel-labs/skills".into(), slug: "find-skills".into() });
    assert_eq!(info.kind, "registry");
    assert_eq!(info.registry_id.as_deref(), Some("vercel-labs/skills/find-skills"));
    assert_eq!(info.from, None);
}

#[test]
fn info_of_git_and_local_sources_names_where_they_come_from() {
    let info = source_info(&SkillSource::Git {
        url: "https://github.com/o/r.git".into(),
        git_ref: Some("main".into()),
        subpath: Some("skills/x".into()),
        skill_filter: None,
        host: GitHost::GitHub,
    });
    assert_eq!(info.kind, "github");
    assert_eq!(info.registry_id, None);
    assert_eq!(info.from.as_deref(), Some("https://github.com/o/r.git"));
    assert_eq!(info.git_ref.as_deref(), Some("main"));
    assert_eq!(info.subpath.as_deref(), Some("skills/x"));
    let info = source_info(&SkillSource::Local { path: "/tmp/skills".into() });
    assert_eq!(info.kind, "local");
    assert_eq!(info.from.as_deref(), Some("/tmp/skills"));
    assert_eq!(info.git_ref, None);
}

#[test]
fn info_shows_a_hash_prefix_and_the_first_files() {
    assert_eq!(INFO_HASH_CHARS, 12);
    assert_eq!(hash_prefix("0123456789abcdef"), "0123456789ab");
    assert_eq!(hash_prefix("abc"), "abc");
    let files: Vec<String> = (0..13).map(|i| format!("f{i}.md")).collect();
    let (shown, more) = listed_files(&files);
    assert_eq!(shown.len(), INFO_FILES_SHOWN);
    assert_eq!(shown[0], "f0.md");
    assert_eq!(shown[9], "f9.md");
    assert_eq!(more, 3);
    let (shown, more) = listed_files(&files[..2].to_vec());
    assert_eq!(shown, vec!["f0.md".to_string(), "f1.md".to_string()]);
    assert_eq!(more, 0);
}
