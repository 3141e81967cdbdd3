use xai_grok_plugin_marketplace::skill_install::{
    apply_skill_filter, check_registry_paths, child_dirs_to_scan, finish_scan, git_provenance,
    git_scan_root, install_destination, is_skipped_dir, local_provenance, missing_subdirectory,
    no_parent_directory, pick_updated, plan_install, plan_removal, record_at, registry_owner_repo,
    registry_provenance, removal_target, select_skills, should_save_lock, staged_file_target,
    update_options, update_plan, within_scan_depth, InstallAction, InstallOptions, InstallRun,
    InstallStep, InstalledSkill, RemovalPlan, SkillInstallError, StagedSkill, TreeCollector, MAX_SKILL_BYTES,
    MAX_SKILL_FILES,
};
use xai_grok_plugin_marketplace::skill_lock::{SkillLock, SkillLockEntry, SkillOrigin};
use xai_grok_plugin_marketplace::skill_registry::{RegistryError, RegistryFile, RegistrySkillFiles};
use xai_grok_plugin_marketplace::skill_scope::SkillScopeTarget;
use xai_grok_plugin_marketplace::skill_source::{parse_skill_source, SkillSource, SkillSourceError};

fn staged(name: &str, dir: &str) -> StagedSkill {
    StagedSkill { name: name.to_string(), description: format!("{name} skill"), dir: dir.to_string() }
}

fn names(v: &[StagedSkill]) -> Vec<&str> {
    v.iter().map(|s| s.name.as_str()).collect()
}

fn entry(hash: &str, origin: SkillOrigin) -> SkillLockEntry {
    SkillLockEntry {
        source: "owner/repo".to_string(),
        source_id: "github:owner/repo".to_string(),
        origin,
        registry_id: None,
        git_ref: None,
        commit: None,
        content_hash: hash.to_string(),
        registry_hash: None,
        installed_at: "2020-01-01T00:00:00Z".to_string(),
        updated_at: "2020-01-01T00:00:00Z".to_string(),
    }
}

fn options(force: bool, dry_run: bool) -> InstallOptions {
    InstallOptions { force, dry_run, only: None }
}

#[test]
fn install_action_labels_are_stable() {
    assert_eq!(InstallAction::Installed.as_str(), "installed");
    assert_eq!(InstallAction::Updated.as_str(), "updated");
    assert_eq!(InstallAction::Unchanged.as_str(), "unchanged");
}

#[test]
fn selection_installs_every_skill_without_only() {
    let picked = select_skills(vec![staged("a", "/s/a"), staged("b", "/s/b")], None, "src").unwrap();
    assert_eq!(names(&picked), vec!["a", "b"]);
}

#[test]
fn selection_with_only_keeps_the_named_skill() {
    let picked =
        select_skills(vec![staged("alpha", "/s/a"), staged("beta", "/s/b")], Some(" Beta "), "src")
            .unwrap();
    assert_eq!(names(&picked), vec!["beta"]);
}

#[test]
fn selection_with_only_reports_a_missing_skill() {
    let err = select_skills(vec![staged("alpha", "/s/a")], Some("Gamma Ray"), "./skills").unwrap_err();
    assert_eq!(
        err,
        SkillInstallError::SkillNotInSource { spec: "./skills".into(), skill: "gamma-ray".into() }
    );
}

#[test]
fn selecting_from_an_empty_source_reports_no_skills() {
    let err = select_skills(Vec::new(), None, "./empty").unwrap_err();
    assert_eq!(err, SkillInstallError::NoSkillsFound("./empty".into()));
}

#[test]
fn skill_filter_narrows_a_git_source() {
    let kept = apply_skill_filter(vec![staged("a", "/a"), staged("b", "/b")], Some("B"), "u").unwrap();
    assert_eq!(names(&kept), vec!["b"]);
    let all = apply_skill_filter(vec![staged("a", "/a")], None, "u").unwrap();
    assert_eq!(names(&all), vec!["a"]);
    let err = apply_skill_filter(vec![staged("a", "/a")], Some("zzz"), "https://x/r.git").unwrap_err();
    assert_eq!(
        err,
        SkillInstallError::SkillNotInSource { spec: "https://x/r.git".into(), skill: "zzz".into() }
    );
}

#[test]
fn fresh_installs_are_written_and_recorded() {
    let lock = SkillLock::new();
    let step = plan_install("deploy", false, None, "h1", &lock, &options(false, false)).unwrap();
    assert_eq!(step, InstallStep { action: InstallAction::Installed, write: true, record: true });
}

#[test]
fn identical_content_is_planned_as_unchanged() {
    let lock = SkillLock::new();
    let step = plan_install("deploy", true, Some("h1"), "h1", &lock, &options(false, true)).unwrap();
    assert_eq!(step, InstallStep { action: InstallAction::Unchanged, write: false, record: true });
}

#[test]
fn replacing_an_untracked_skill_needs_force() {
    let lock = SkillLock::new();
    let err = plan_install("deploy", true, Some("other"), "h1", &lock, &options(false, false));
    assert_eq!(err, Err(SkillInstallError::AlreadyInstalled("deploy".into())));
    let forced = plan_install("deploy", true, Some("other"), "h1", &lock, &options(true, false));
    assert_eq!(
        forced,
        Ok(InstallStep { action: InstallAction::Updated, write: true, record: true })
    );
}

#[test]
fn edited_skills_are_not_replaced_without_force() {
    let mut lock = SkillLock::new();
    lock.upsert("deploy", entry("recorded", SkillOrigin::Git));
    let err = plan_install("deploy", true, Some("edited"), "upstream", &lock, &options(false, false));
    assert_eq!(err, Err(SkillInstallError::LocallyModified("deploy".into())));
    // Unedited: the installed copy still hashes to what was recorded.
    let ok = plan_install("deploy", true, Some("recorded"), "upstream", &lock, &options(false, false));
    assert_eq!(ok, Ok(InstallStep { action: InstallAction::Updated, write: true, record: true }));
    // An installed copy that could not be hashed does not count as edited.
    let unhashed = plan_install("deploy", true, None, "upstream", &lock, &options(false, false));
    assert!(unhashed.is_ok());
}

#[test]
fn dry_run_plans_no_writes() {
    let lock = SkillLock::new();
    let step = plan_install("deploy", false, None, "h", &lock, &options(false, true)).unwrap();
    assert_eq!(step, InstallStep { action: InstallAction::Installed, write: false, record: false });
    assert!(!should_save_lock(&options(false, true), 3));
    assert!(!should_save_lock(&options(false, false), 0));
    assert!(should_save_lock(&options(false, false), 1));
}

#[test]
fn record_at_writes_the_install_provenance() {
    let mut lock = SkillLock::new();
    let source = SkillSource::Registry { source: "owner/repo".into(), slug: "deploy".into() };
    let prov = registry_provenance("owner/repo", "deploy", Some("reg-hash".into()));
    record_at(&mut lock, "deploy", "owner/repo/deploy", &source, &prov, "content", "2024-01-01T00:00:00Z");
    let e = lock.get("deploy").unwrap();
    assert_eq!(e.source, "owner/repo/deploy");
    assert_eq!(e.source_id, source.identity());
    assert_eq!(e.origin, SkillOrigin::Registry);
    assert_eq!(e.registry_id.as_deref(), Some("owner/repo/deploy"));
    assert_eq!(e.registry_hash.as_deref(), Some("reg-hash"));
    assert_eq!(e.content_hash, "content");
    assert_eq!(e.installed_at, "2024-01-01T00:00:00Z");
    assert_eq!(e.updated_at, "2024-01-01T00:00:00Z");

    // A later install keeps the first-install time.
    record_at(&mut lock, "deploy", "owner/repo/deploy", &source, &prov, "content2", "2025-02-02T00:00:00Z");
    let e = lock.get("deploy").unwrap();
    assert_eq!(e.installed_at, "2024-01-01T00:00:00Z");
    assert_eq!(e.updated_at, "2025-02-02T00:00:00Z");
    assert_eq!(e.content_hash, "content2");
}

#[test]
fn git_record_keeps_the_commit_and_ref() {
    let mut lock = SkillLock::new();
    let source = parse_skill_source("owner/repo#v1", "/work", false).unwrap();
    let prov = git_provenance(Some("abc123".into()));
    record_at(&mut lock, "deploy", "owner/repo#v1", &source, &prov, "h", "t");
    let e = lock.get("deploy").unwrap();
    assert_eq!(e.origin, SkillOrigin::Git);
    assert_eq!(e.commit.as_deref(), Some("abc123"));
    assert_eq!(e.git_ref.as_deref(), Some("v1"));
    assert_eq!(e.registry_id, None);
}

#[test]
fn local_installs_record_a_local_origin() {
    let mut lock = SkillLock::new();
    let source = SkillSource::Local { path: "/work/skills".into() };
    record_at(&mut lock, "deploy", "./skills", &source, &local_provenance(), "h", "t");
    let e = lock.get("deploy").unwrap();
    assert_eq!(e.origin, SkillOrigin::Local);
    assert_eq!(e.source_id, "local:/work/skills");
    assert_eq!(e.git_ref, None);
}

#[test]
fn install_destination_stays_in_the_skills_directory() {
    let scope = SkillScopeTarget::user("/home/u/.grok");
    assert_eq!(install_destination(&scope, "Deploy").unwrap(), "/home/u/.grok/skills/deploy");
    assert_eq!(
        install_destination(&scope, "!!!").unwrap_err(),
        SkillInstallError::InvalidSkill {
            name: "!!!".into(),
            reason: "resolved install path escapes the skills directory".into()
        }
    );
}

#[test]
fn tree_collector_skips_sidecars_and_unsafe_paths() {
    let mut tree = TreeCollector::new();
    assert_eq!(tree.add_file("metadata.json", b"{}".to_vec()), Ok(false));
    assert_eq!(tree.add_file("SKILL.md", b"body".to_vec()), Ok(true));
    assert_eq!(tree.add_file("rules\\a.md", b"rule".to_vec()), Ok(true));
    assert_eq!(tree.add_file("../escape", b"x".to_vec()), Ok(false));
    let files = tree.finish();
    let paths: Vec<&str> = files.iter().map(|(p, _)| p.as_str()).collect();
    assert_eq!(paths, vec!["SKILL.md", "rules/a.md"]);
    assert_eq!(files[1].1, b"rule".to_vec());
}

#[test]
fn tree_reading_enforces_the_size_limit() {
    let mut tree = TreeCollector::new();
    let big = vec![0u8; MAX_SKILL_BYTES as usize];
    assert_eq!(tree.add_file("a.bin", big), Ok(true));
    assert_eq!(
        tree.add_file("b.bin", vec![1u8]),
        Err(SkillInstallError::TooLarge { limit: MAX_SKILL_BYTES })
    );
}

#[test]
fn tree_reading_enforces_the_file_count_limit() {
    let mut tree = TreeCollector::new();
    for i in 0..MAX_SKILL_FILES {
        assert_eq!(tree.add_file(&format!("f{i}"), Vec::new()), Ok(true));
    }
    assert_eq!(
        tree.add_file("one-too-many", Vec::new()),
        Err(SkillInstallError::TooLarge { limit: MAX_SKILL_FILES as u64 })
    );
}

#[test]
fn vendor_and_build_directories_are_not_scanned() {
    for name in [".git", ".github", "node_modules", "target", "__pycache__", "__pypackages__", ".venv", "venv", ".next", "dist", "build"] {
        assert!(is_skipped_dir(name), "{name}");
    }
    assert!(!is_skipped_dir("skills"));
    assert!(!is_skipped_dir("Build"));
    let children = child_dirs_to_scan(vec![
        "zeta".to_string(),
        "node_modules".to_string(),
        "alpha".to_string(),
        ".git".to_string(),
    ]);
    assert_eq!(children, vec!["alpha", "zeta"]);
    assert!(within_scan_depth(8));
    assert!(!within_scan_depth(9));
}

#[test]
fn scanned_skills_are_sorted_and_deduplicated_by_name() {
    let found = vec![staged("b", "/1"), staged("a", "/2"), staged("b", "/3"), staged("a", "/4")];
    let out = finish_scan(found, "/root").unwrap();
    let dirs: Vec<(&str, &str)> = out.iter().map(|s| (s.name.as_str(), s.dir.as_str())).collect();
    assert_eq!(dirs, vec![("a", "/2"), ("b", "/1")]);
    assert_eq!(
        finish_scan(Vec::new(), "/root").unwrap_err(),
        SkillInstallError::NoSkillsFound("/root".into())
    );
}

#[test]
fn registry_sources_split_into_owner_and_repo() {
    assert_eq!(
        registry_owner_repo("owner/repo", "slug"),
        Ok(("owner".into(), "repo".into()))
    );
    assert_eq!(
        registry_owner_repo("mintlify.com", "slug"),
        Err(RegistryError::NotFound("mintlify.com/slug".into()))
    );
    assert_eq!(
        registry_owner_repo("a/b/c", "s"),
        Ok(("a".into(), "b/c".into()))
    );
}

#[test]
fn registry_payload_paths_are_rechecked() {
    let payload = RegistrySkillFiles {
        files: vec![
            RegistryFile { path: "SKILL.md".into(), contents: "x".into() },
            RegistryFile { path: "../evil".into(), contents: "x".into() },
        ],
        hash: None,
    };
    assert_eq!(
        check_registry_paths("o/r", "s", &payload),
        Err(RegistryError::UnsafePath { name: "o/r/s".into(), path: "../evil".into() })
    );
}

#[test]
fn git_scan_root_joins_the_subdirectory() {
    assert_eq!(git_scan_root("/stage/repo", Some("skills/one")).unwrap(), "/stage/repo/skills/one");
    assert_eq!(git_scan_root("/stage/repo", None).unwrap(), "/stage/repo");
    assert_eq!(
        git_scan_root("/stage/repo", Some("../out")).unwrap_err(),
        SkillInstallError::InvalidSkill {
            name: "../out".into(),
            reason: "subdirectory escapes the repository root".into()
        }
    );
}

#[test]
fn missing_subdirectory_error_names_url_and_path() {
    assert_eq!(
        missing_subdirectory("https://github.com/o/r.git", "nope"),
        SkillInstallError::NoSkillsFound("https://github.com/o/r.git (nope)".into())
    );
}

#[test]
fn written_files_stay_inside_the_staged_root() {
    assert_eq!(staged_file_target("/t/skill", "rules/a.md").unwrap(), "/t/skill/rules/a.md");
    assert!(matches!(
        staged_file_target("/t/skill", "../x"),
        Err(SkillInstallError::InvalidSkill { .. })
    ));
    assert_eq!(
        no_parent_directory("/"),
        SkillInstallError::InvalidSkill {
            name: "/".into(),
            reason: "install path has no parent directory".into()
        }
    );
}

#[test]
fn removal_deletes_files_and_drops_the_record() {
    let scope = SkillScopeTarget::user("/home/u/.grok");
    let (normalized, dir) = removal_target("Deploy", &scope).unwrap();
    assert_eq!(normalized, "deploy");
    assert_eq!(dir, "/home/u/.grok/skills/deploy");
    let mut lock = SkillLock::new();
    lock.upsert("deploy", entry("h", SkillOrigin::Registry));
    let plan = plan_removal("Deploy", &normalized, &mut lock, true, false).unwrap();
    assert_eq!(plan, RemovalPlan { delete_files: true, save_lock: true });
    assert!(!lock.contains("deploy"));
}

#[test]
fn removal_can_keep_files() {
    let mut lock = SkillLock::new();
    lock.upsert("deploy", entry("h", SkillOrigin::Registry));
    let plan = plan_removal("deploy", "deploy", &mut lock, true, true).unwrap();
    assert_eq!(plan, RemovalPlan { delete_files: false, save_lock: true });
    assert!(!lock.contains("deploy"));
}

#[test]
fn removal_clears_a_stale_record() {
    let mut lock = SkillLock::new();
    lock.upsert("deploy", entry("h", SkillOrigin::Registry));
    let plan = plan_removal("deploy", "deploy", &mut lock, false, false).unwrap();
    assert_eq!(plan, RemovalPlan { delete_files: false, save_lock: true });
    assert!(lock.skills.is_empty());
}

#[test]
fn removal_reports_an_unknown_skill() {
    let mut lock = SkillLock::new();
    let err = plan_removal("Ghost", "ghost", &mut lock, false, false).unwrap_err();
    assert_eq!(err, SkillInstallError::NotInstalled("Ghost".into()));
    let scope = SkillScopeTarget::user("/home/u/.grok");
    assert_eq!(
        removal_target("!!!", &scope).unwrap_err(),
        SkillInstallError::NotInstalled("!!!".into())
    );
}

#[test]
fn removal_works_without_a_record() {
    let mut lock = SkillLock::new();
    let plan = plan_removal("mine", "mine", &mut lock, true, false).unwrap();
    assert_eq!(plan, RemovalPlan { delete_files: true, save_lock: true });
}

#[test]
fn update_plan_reads_the_recorded_source() {
    let mut lock = SkillLock::new();
    lock.upsert("deploy", entry("h", SkillOrigin::Registry));
    let plan = update_plan("Deploy", &lock).unwrap();
    assert_eq!(plan.normalized, "deploy");
    assert_eq!(plan.source, "owner/repo");
    assert!(plan.prefer_registry);
    let opts = update_options(&InstallOptions { force: true, dry_run: false, only: None }, "deploy");
    assert!(opts.force);
    assert!(!opts.dry_run);
    assert_eq!(opts.only.as_deref(), Some("deploy"));
}

#[test]
fn update_plan_rejects_an_untracked_skill() {
    let lock = SkillLock::new();
    assert_eq!(
        update_plan("mine", &lock).unwrap_err(),
        SkillInstallError::NotTracked("mine".into())
    );
}

#[test]
fn update_picks_the_skill_being_updated() {
    let results = vec![
        InstalledSkill {
            name: "other".into(),
            description: String::new(),
            path: "/p/other".into(),
            action: InstallAction::Updated,
            content_hash: "h".into(),
            file_count: 1,
        },
        InstalledSkill {
            name: "deploy".into(),
            description: String::new(),
            path: "/p/deploy".into(),
            action: InstallAction::Unchanged,
            content_hash: "h".into(),
            file_count: 2,
        },
    ];
    let picked = pick_updated(results, "deploy", "spec").unwrap();
    assert_eq!(picked.path, "/p/deploy");
    assert_eq!(picked.action, InstallAction::Unchanged);
    assert_eq!(
        pick_updated(Vec::new(), "deploy", "spec").unwrap_err(),
        SkillInstallError::SkillNotInSource { spec: "spec".into(), skill: "deploy".into() }
    );
}

#[test]
fn install_error_messages() {
    assert_eq!(
        SkillInstallError::AlreadyInstalled("deploy".into()).message(),
        "skill `deploy` is already installed; pass --force to overwrite it or run `grok skill update deploy`"
    );
    assert_eq!(
        SkillInstallError::TooLarge { limit: 2000 }.message(),
        "source exceeds the install size limit (2000 bytes)"
    );
    assert_eq!(
        SkillInstallError::Source(SkillSourceError::Empty).message(),
        "skill source is empty"
    );
    assert_eq!(
        SkillInstallError::NoSkillsFound("./x".into()).message(),
        "no SKILL.md found in ./x"
    );
    assert_eq!(
        SkillInstallError::Registry(RegistryError::QueryTooShort).message(),
        "search query must be at least 2 characters"
    );
}

#[test]
fn default_install_options_change_nothing() {
    let o = InstallOptions::default();
    assert!(!o.force && !o.dry_run && o.only.is_none());
}

#[test]
fn registry_provenance_names_the_download() {
    let p = registry_provenance("o/r", "s", None);
    assert_eq!(p.origin_override, Some(SkillOrigin::Registry));
    assert_eq!(p.registry_id.as_deref(), Some("o/r/s"));
    assert_eq!(p.registry_hash, None);
    assert_eq!(p.commit, None);
}

#[test]
fn component_errors_convert_into_install_errors() {
    assert_eq!(
        SkillInstallError::from(SkillSourceError::Empty),
        SkillInstallError::Source(SkillSourceError::Empty)
    );
    assert_eq!(
        SkillInstallError::from(RegistryError::QueryTooShort),
        SkillInstallError::Registry(RegistryError::QueryTooShort)
    );
}

fn landed(name: &str) -> InstalledSkill {
    InstalledSkill {
        name: name.to_string(),
        description: String::new(),
        path: format!("/scope/skills/{name}"),
        action: InstallAction::Installed,
        content_hash: "h".to_string(),
        file_count: 1,
    }
}

#[test]
fn install_run_keeps_every_success_in_order() {
    let mut run = InstallRun::new();
    assert!(run.wants_more());
    assert!(run.step(Ok(landed("a"))));
    assert!(run.step(Ok(landed("b"))));
    assert!(run.saves_lock(&options(false, false)));
    assert!(!run.saves_lock(&options(false, true)));
    let done = run.finish().unwrap();
    let got: Vec<&str> = done.iter().map(|s| s.name.as_str()).collect();
    assert_eq!(got, vec!["a", "b"]);
}

#[test]
fn install_run_stops_at_the_first_failure_and_keeps_what_landed() {
    let mut run = InstallRun::new();
    assert!(run.step(Ok(landed("a"))));
    assert!(!run.step(Err(SkillInstallError::AlreadyInstalled("b".to_string()))));
    assert!(!run.wants_more());
    // Later outcomes are ignored once the run has ended.
    assert!(!run.step(Ok(landed("c"))));
    assert!(!run.step(Err(SkillInstallError::NotInstalled("d".to_string()))));
    assert_eq!(run.results.len(), 1);
    assert_eq!(run.results[0].name, "a");
    // What landed before the failure is still saved to the lockfile.
    assert!(run.saves_lock(&options(false, false)));
    assert_eq!(run.finish().unwrap_err(), SkillInstallError::AlreadyInstalled("b".to_string()));
}

#[test]
fn install_run_failing_first_saves_nothing() {
    let mut run = InstallRun::new();
    assert!(!run.step(Err(SkillInstallError::Git("clone failed".to_string()))));
    assert!(!run.saves_lock(&options(false, false)));
    assert_eq!(run.finish().unwrap_err(), SkillInstallError::Git("clone failed".to_string()));
}

#[test]
fn empty_install_run_finishes_with_nothing() {
    let run = InstallRun::new();
    assert!(!run.saves_lock(&options(true, false)));
    assert!(run.finish().unwrap().is_empty());
}
