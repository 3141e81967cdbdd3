use xai_grok_plugin_marketplace::skill_validate::join_within;
use xai_grok_plugin_marketplace::skill_registry::{
    download_name, download_target, finish_download, is_safe_relative_path, rank_search_hits,
    registry_base_url_from, skill_from_hit, split_registry_id, validate_skill_files, RegistryClient,
    RegistryError, RegistryFile, RegistrySkill, RegistrySkillFiles, SearchHit, DEFAULT_REGISTRY_URL,
    MAX_FILE_BYTES, MAX_SEARCH_LIMIT, MAX_SKILL_BYTES, MAX_SKILL_FILES, REQUEST_TIMEOUT_SECS,
};

fn files(paths: &[(&str, &str)]) -> RegistrySkillFiles {
    RegistrySkillFiles {
        files: paths
            .iter()
            .map(|(path, contents)| RegistryFile {
                path: (*path).to_string(),
                contents: (*contents).to_string(),
            })
            .collect(),
        hash: Some("abc123".into()),
    }
}

fn hit(id: &str, name: &str, skill_id: Option<&str>, installs: Option<u64>) -> SearchHit {
    SearchHit {
        id: id.to_string(),
        name: name.to_string(),
        source: " owner/repo ".to_string(),
        skill_id: skill_id.map(str::to_string),
        installs,
    }
}

#[test]
fn default_base_url_is_the_public_registry() {
    let client = RegistryClient::with_base_url(DEFAULT_REGISTRY_URL);
    assert_eq!(client.base_url(), "https://skills.sh");
}

#[test]
fn base_url_trailing_slash_is_trimmed() {
    let client = RegistryClient::with_base_url("https://mirror.internal/");
    assert_eq!(client.base_url(), "https://mirror.internal");
}

#[test]
fn search_limit_is_clamped_to_the_documented_maximum() {
    assert_eq!(MAX_SEARCH_LIMIT, 200);
    assert_eq!(5000usize.clamp(1, MAX_SEARCH_LIMIT), 200);
    assert_eq!(0usize.clamp(1, MAX_SEARCH_LIMIT), 1);
}

#[test]
fn splits_three_segment_registry_ids() {
    assert_eq!(
        split_registry_id("vercel-labs/skills/find-skills"),
        Some((
            "vercel-labs".to_string(),
            "skills".to_string(),
            "find-skills".to_string()
        ))
    );
    assert_eq!(
        split_registry_id("/owner/repo/slug/"),
        Some(("owner".to_string(), "repo".to_string(), "slug".to_string()))
    );
}

#[test]
fn rejects_registry_ids_with_the_wrong_segment_count() {
    assert_eq!(split_registry_id("owner/repo"), None);
    assert_eq!(split_registry_id("owner/repo/slug/extra"), None);
    assert_eq!(split_registry_id(""), None);
}

#[test]
fn accepts_ordinary_relative_paths() {
    assert!(is_safe_relative_path("SKILL.md"));
    assert!(is_safe_relative_path("rules/deploy.md"));
    assert!(is_safe_relative_path("scripts/nested/run.sh"));
}

#[test]
fn rejects_absolute_traversal_and_prefixed_paths() {
    assert!(!is_safe_relative_path("/etc/passwd"));
    assert!(!is_safe_relative_path("../escape.md"));
    assert!(!is_safe_relative_path("rules/../../escape.md"));
    assert!(!is_safe_relative_path("C:/Windows/system32"));
    assert!(!is_safe_relative_path("..\\escape.md"));
    assert!(!is_safe_relative_path(""));
    assert!(!is_safe_relative_path("bad\u{0}name.md"));
    assert!(!is_safe_relative_path("./SKILL.md"));
}

#[test]
fn validation_accepts_a_well_formed_skill() {
    let payload = files(&[("SKILL.md", "---\nname: x\n---\nbody"), ("a/b.md", "x")]);
    assert!(validate_skill_files("owner/repo/x", &payload).is_ok());
}

#[test]
fn validation_rejects_a_skill_without_skill_md() {
    let payload = files(&[("README.md", "hello")]);
    assert!(matches!(
        validate_skill_files("owner/repo/x", &payload).unwrap_err(),
        RegistryError::Malformed(_)
    ));
}

#[test]
fn validation_rejects_an_empty_payload() {
    let payload = files(&[]);
    assert!(matches!(
        validate_skill_files("owner/repo/x", &payload).unwrap_err(),
        RegistryError::Malformed(_)
    ));
}

#[test]
fn validation_rejects_unsafe_paths() {
    let payload = files(&[("SKILL.md", "x"), ("../evil.md", "x")]);
    assert!(matches!(
        validate_skill_files("owner/repo/x", &payload).unwrap_err(),
        RegistryError::UnsafePath { .. }
    ));
}

#[test]
fn validation_rejects_oversized_files() {
    let huge = "a".repeat(3 * 1024 * 1024);
    let payload = files(&[("SKILL.md", "x"), ("big.md", huge.as_str())]);
    assert!(matches!(
        validate_skill_files("owner/repo/x", &payload).unwrap_err(),
        RegistryError::TooLarge { .. }
    ));
}

#[test]
fn skill_md_lookup_is_case_insensitive() {
    let payload = files(&[("skill.md", "body")]);
    assert!(payload.skill_md().is_some());
    assert_eq!(payload.total_bytes(), 4);
}

#[test]
fn registry_skill_exposes_page_url_and_install_spec() {
    let skill = RegistrySkill {
        id: "owner/repo/slug".into(),
        slug: "slug".into(),
        name: "Slug".into(),
        source: "owner/repo".into(),
        installs: 12,
    };
    assert_eq!(skill.install_spec(), "owner/repo/slug");
    assert!(skill.page_url(DEFAULT_REGISTRY_URL).ends_with("/owner/repo/slug"));
}

#[test]
fn page_url_joins_the_base_and_the_id() {
    let skill = RegistrySkill {
        id: "owner/repo/slug".into(),
        slug: "slug".into(),
        name: "Slug".into(),
        source: "owner/repo".into(),
        installs: 0,
    };
    assert_eq!(skill.page_url("https://skills.sh"), "https://skills.sh/owner/repo/slug");
}

#[test]
fn validation_error_messages_name_the_skill() {
    let empty = validate_skill_files("o/r/x", &files(&[])).unwrap_err();
    assert_eq!(empty, RegistryError::Malformed("skill `o/r/x` contains no files".into()));
    let no_md = validate_skill_files("o/r/x", &files(&[("README.md", "hi")])).unwrap_err();
    assert_eq!(no_md, RegistryError::Malformed("skill `o/r/x` has no SKILL.md".into()));
    let unsafe_path =
        validate_skill_files("o/r/x", &files(&[("SKILL.md", "x"), ("a/./b", "x")])).unwrap_err();
    assert_eq!(
        unsafe_path,
        RegistryError::UnsafePath { name: "o/r/x".into(), path: "a/./b".into() }
    );
}

#[test]
fn validation_reports_the_per_file_limit() {
    let big = "a".repeat(MAX_FILE_BYTES + 1);
    let err = validate_skill_files("o/r/x", &files(&[("SKILL.md", big.as_str())])).unwrap_err();
    assert_eq!(err, RegistryError::TooLarge { name: "o/r/x".into(), limit: MAX_FILE_BYTES });
    // Exactly at the limit is fine.
    let edge = "a".repeat(MAX_FILE_BYTES);
    assert!(validate_skill_files("o/r/x", &files(&[("SKILL.md", edge.as_str())])).is_ok());
}

#[test]
fn validation_reports_the_total_size_limit() {
    let chunk = "a".repeat(MAX_FILE_BYTES);
    let names: Vec<String> = (0..17).map(|i| format!("f{i}.md")).collect();
    let mut entries: Vec<(&str, &str)> = vec![("SKILL.md", "x")];
    for n in &names {
        entries.push((n.as_str(), chunk.as_str()));
    }
    let err = validate_skill_files("o/r/x", &files(&entries)).unwrap_err();
    assert_eq!(err, RegistryError::TooLarge { name: "o/r/x".into(), limit: MAX_SKILL_BYTES });
}

#[test]
fn validation_reports_the_file_count_limit() {
    let names: Vec<String> = (0..MAX_SKILL_FILES + 1).map(|i| format!("f{i}.md")).collect();
    let entries: Vec<(&str, &str)> = names.iter().map(|n| (n.as_str(), "x")).collect();
    let err = validate_skill_files("o/r/x", &files(&entries)).unwrap_err();
    assert_eq!(err, RegistryError::TooLarge { name: "o/r/x".into(), limit: MAX_SKILL_FILES });
}

#[test]
fn total_bytes_counts_utf8_bytes() {
    let payload = files(&[("SKILL.md", "héllo"), ("b.md", "日本")]);
    assert_eq!(payload.total_bytes(), 6 + 6);
}

#[test]
fn skill_md_lookup_returns_the_first_match() {
    let payload = files(&[("a.md", "0"), ("Skill.MD", "1"), ("SKILL.md", "2")]);
    assert_eq!(payload.skill_md().unwrap().contents, "1");
    assert!(files(&[("nested/SKILL.md", "x")]).skill_md().is_none());
}

#[test]
fn search_url_encodes_the_query_and_clamps_the_limit() {
    let client = RegistryClient::with_base_url("https://skills.sh/");
    assert_eq!(
        client.search_url("  react native ", 5000, None).unwrap(),
        "https://skills.sh/api/search?q=react%20native&limit=200"
    );
    assert_eq!(
        client.search_url("deploy", 0, Some(" vercel ")).unwrap(),
        "https://skills.sh/api/search?q=deploy&limit=1&owner=vercel"
    );
    assert_eq!(
        client.search_url("a~b_c.d-e", 20, Some("  ")).unwrap(),
        "https://skills.sh/api/search?q=a~b_c.d-e&limit=20"
    );
    assert_eq!(
        client.search_url("né/ü", 7, None).unwrap(),
        "https://skills.sh/api/search?q=n%C3%A9%2F%C3%BC&limit=7"
    );
}

#[test]
fn search_rejects_single_character_queries() {
    let client = RegistryClient::with_base_url("http://127.0.0.1:1");
    assert_eq!(client.search_url("a", 10, None), Err(RegistryError::QueryTooShort));
    assert_eq!(client.search_url("  ", 10, None), Err(RegistryError::QueryTooShort));
    assert!(client.search_url(" ab ", 10, None).is_ok());
}

#[test]
fn download_url_encodes_each_segment() {
    let client = RegistryClient::with_base_url("https://skills.sh");
    assert_eq!(
        client.download_url("vercel labs", "skills", "find:skills"),
        "https://skills.sh/api/download/vercel%20labs/skills/find%3Askills"
    );
    assert_eq!(download_name("o", "r", "s"), "o/r/s");
}

#[test]
fn download_by_id_rejects_malformed_ids() {
    assert_eq!(
        download_target(" owner/repo "),
        Err(RegistryError::NotFound("owner/repo".into()))
    );
    assert_eq!(
        download_target("owner/repo/slug"),
        Ok(("owner".into(), "repo".into(), "slug".into()))
    );
}

#[test]
fn download_maps_a_404_to_not_found() {
    let not_found = finish_download(
        "o/r/s",
        Err(RegistryError::Status { status: 404, url: "u".into() }),
    );
    assert_eq!(not_found.unwrap_err(), RegistryError::NotFound("o/r/s".into()));
    let server = finish_download(
        "o/r/s",
        Err(RegistryError::Status { status: 503, url: "u".into() }),
    );
    assert_eq!(server.unwrap_err(), RegistryError::Status { status: 503, url: "u".into() });
    let transport = finish_download("o/r/s", Err(RegistryError::Transport("boom".into())));
    assert_eq!(transport.unwrap_err(), RegistryError::Transport("boom".into()));
}

#[test]
fn download_validates_the_payload() {
    let ok = finish_download("o/r/s", Ok(files(&[("SKILL.md", "x")]))).unwrap();
    assert_eq!(ok.files.len(), 1);
    assert_eq!(ok.hash.as_deref(), Some("abc123"));
    let bad = finish_download("o/r/s", Ok(files(&[("README.md", "x")])));
    assert!(matches!(bad.unwrap_err(), RegistryError::Malformed(_)));
}

#[test]
fn hits_fill_in_missing_fields() {
    let s = skill_from_hit(&hit(" a/b/c ", "  ", None, None)).unwrap();
    assert_eq!(s.id, "a/b/c");
    assert_eq!(s.slug, "c");
    assert_eq!(s.name, "c");
    assert_eq!(s.source, "owner/repo");
    assert_eq!(s.installs, 0);

    let s = skill_from_hit(&hit("a/b/c", " Nice ", Some(" slug-x "), Some(7))).unwrap();
    assert_eq!(s.slug, "slug-x");
    assert_eq!(s.name, "Nice");
    assert_eq!(s.installs, 7);

    let s = skill_from_hit(&hit("plain", "", Some("   "), None)).unwrap();
    assert_eq!(s.slug, "plain");

    assert!(skill_from_hit(&hit("   ", "x", None, Some(3))).is_none());
}

#[test]
fn search_results_are_ranked_by_installs_then_id() {
    let hits = vec![
        hit("o/r/b", "", None, Some(5)),
        hit("", "dropped", None, Some(100)),
        hit("o/r/a", "", None, Some(5)),
        hit("o/r/z", "", None, Some(50)),
        hit("o/r/c", "", None, None),
    ];
    let ranked = rank_search_hits(&hits);
    let ids: Vec<&str> = ranked.iter().map(|s| s.id.as_str()).collect();
    assert_eq!(ids, vec!["o/r/z", "o/r/a", "o/r/b", "o/r/c"]);
}

#[test]
fn ranking_keeps_ties_in_registry_order() {
    let hits = vec![
        hit("o/r/x", "first", None, Some(1)),
        hit("o/r/x", "second", None, Some(1)),
    ];
    let ranked = rank_search_hits(&hits);
    assert_eq!(ranked[0].name, "first");
    assert_eq!(ranked[1].name, "second");
}

#[test]
fn base_url_override_is_trimmed_or_ignored_when_blank() {
    assert_eq!(registry_base_url_from(None), "https://skills.sh");
    assert_eq!(registry_base_url_from(Some("  ")), "https://skills.sh");
    assert_eq!(registry_base_url_from(Some("///")), "https://skills.sh");
    assert_eq!(registry_base_url_from(Some(" https://m.example// ")), "https://m.example");
    assert_eq!(RegistryClient::new(Some("https://m.example/")).base_url(), "https://m.example");
    assert_eq!(RegistryClient::new(None).base_url(), DEFAULT_REGISTRY_URL);
}

#[test]
fn client_timeout_defaults_and_can_be_overridden() {
    let client = RegistryClient::with_base_url("https://x");
    assert_eq!(client.timeout(), std::time::Duration::from_secs(REQUEST_TIMEOUT_SECS));
    assert_eq!(client.timeout(), std::time::Duration::from_secs(20));
    assert_eq!(RegistryClient::new(None).timeout(), std::time::Duration::from_secs(20));
    let client = client.with_timeout(std::time::Duration::from_millis(150));
    assert_eq!(client.timeout(), std::time::Duration::from_millis(150));
    assert_eq!(client.base_url(), "https://x");
}

#[test]
fn registry_error_messages() {
    assert_eq!(
        RegistryError::QueryTooShort.message(),
        "search query must be at least 2 characters"
    );
    assert_eq!(
        RegistryError::NotFound("o/r/s".into()).message(),
        "skill `o/r/s` was not found in the registry"
    );
    assert_eq!(
        RegistryError::Status { status: 502, url: "https://x/y".into() }.message(),
        "registry returned HTTP 502 for https://x/y"
    );
    assert_eq!(
        RegistryError::TooLarge { name: "o/r/s".into(), limit: 2097152 }.message(),
        "skill `o/r/s` exceeds the 2097152 byte download limit"
    );
    assert_eq!(
        RegistryError::UnsafePath { name: "o/r/s".into(), path: "../x".into() }.message(),
        "skill `o/r/s` contains an unsafe file path `../x`"
    );
    assert_eq!(
        RegistryError::Transport("timed out".into()).message(),
        "registry request failed: timed out"
    );
    assert_eq!(
        RegistryError::Malformed("bad".into()).message(),
        "registry returned a malformed response: bad"
    );
}

#[test]
fn safe_registry_paths_are_written_inside_the_skill_directory() {
    for path in ["SKILL.md", "rules/deploy.md", "scripts\\nested\\run.sh"] {
        assert!(is_safe_relative_path(path));
        let joined = join_within("/stage/skill", path).unwrap();
        assert!(joined.starts_with("/stage/skill/"), "{joined}");
    }
    assert_eq!(
        join_within("/stage/skill", "scripts\\nested\\run.sh").unwrap(),
        "/stage/skill/scripts/nested/run.sh"
    );
}

#[test]
fn well_known_sources_split_with_an_empty_repo() {
    assert_eq!(
        split_registry_id("mintlify.com/mintlify"),
        Some(("mintlify.com".to_string(), String::new(), "mintlify".to_string()))
    );
    assert_eq!(
        download_target(" /mintlify.com/mintlify/ "),
        Ok(("mintlify.com".to_string(), String::new(), "mintlify".to_string()))
    );
    let client = RegistryClient::with_base_url("https://skills.sh");
    assert_eq!(
        client.download_url("mintlify.com", "", "mintlify"),
        "https://skills.sh/api/download/mintlify.com/mintlify"
    );
    assert_eq!(download_name("mintlify.com", "", "mintlify"), "mintlify.com/mintlify");
    // Two plain segments are not a well-known source.
    assert_eq!(split_registry_id("owner/repo"), None);
}
