use xai_grok_plugin_marketplace::skill_validate::{
    is_valid_name, join_within, normalize_name, validate_parsed_skill, FrontmatterError,
    ParsedFrontmatter, MAX_NAME_LEN,
};

fn parsed(name: &str, description: &str) -> Result<ParsedFrontmatter, FrontmatterError> {
    Ok(ParsedFrontmatter { name: name.to_string(), description: description.to_string() })
}

#[test]
fn normalizes_mixed_case_and_separators() {
    assert_eq!(normalize_name("Deploy To Prod"), "deploy-to-prod");
    assert_eq!(normalize_name("review_pr"), "review-pr");
    assert_eq!(normalize_name("tool-v1.2"), "tool-v1-2");
    assert_eq!(normalize_name("  spaced  "), "spaced");
}

#[test]
fn normalization_collapses_and_trims_hyphens() {
    assert_eq!(normalize_name("--a---b--"), "a-b");
    assert_eq!(normalize_name("!!!"), "");
}

#[test]
fn normalization_caps_length() {
    let long = "a".repeat(200);
    assert_eq!(normalize_name(&long).len(), MAX_NAME_LEN);
}

#[test]
fn valid_names_are_lowercase_slugs() {
    assert!(is_valid_name("deploy"));
    assert!(is_valid_name("review-pr-2"));
    assert!(!is_valid_name(""));
    assert!(!is_valid_name("-lead"));
    assert!(!is_valid_name("trail-"));
    assert!(!is_valid_name("double--hyphen"));
    assert!(!is_valid_name("UPPER"));
    assert!(!is_valid_name("has space"));
    assert!(!is_valid_name(&"a".repeat(MAX_NAME_LEN + 1)));
}

#[test]
fn joins_relative_paths_under_the_root() {
    let root = "/base";
    assert_eq!(join_within(root, "SKILL.md").unwrap(), "/base/SKILL.md");
    assert_eq!(join_within(root, "rules/a.md").unwrap(), "/base/rules/a.md");
    assert_eq!(join_within(root, "./rules/a.md").unwrap(), "/base/rules/a.md");
    assert_eq!(join_within(root, "rules\\a.md").unwrap(), "/base/rules/a.md");
}

#[test]
fn rejects_paths_that_escape_the_root() {
    let root = "/base";
    assert_eq!(join_within(root, "../escape"), None);
    assert_eq!(join_within(root, "rules/../../escape"), None);
    assert_eq!(join_within(root, "/absolute"), None);
    assert_eq!(join_within(root, "C:/win"), None);
    assert_eq!(join_within(root, ""), None);
    assert_eq!(join_within(root, "."), None);
}

#[test]
fn parsed_frontmatter_with_name_and_description_is_valid() {
    let valid = validate_parsed_skill(parsed("deploy", "Ship the app"), None).unwrap();
    assert_eq!(valid.name, "deploy");
    assert_eq!(valid.description, "Ship the app");
}

#[test]
fn parsed_frontmatter_name_is_normalized() {
    let valid = validate_parsed_skill(parsed("Deploy To Prod", "Ship it"), None).unwrap();
    assert_eq!(valid.name, "deploy-to-prod");
}

#[test]
fn parsed_frontmatter_without_a_usable_name_is_rejected() {
    let error = validate_parsed_skill(parsed("!!!", "Ship it"), None).unwrap_err();
    assert_eq!(error, "skill name `!!!` is not a usable slug");
}

#[test]
fn description_falls_back_to_the_name() {
    let valid = validate_parsed_skill(parsed("deploy", ""), None).unwrap();
    assert_eq!(valid.description, "deploy");
    let blank_body = validate_parsed_skill(parsed("deploy", " "), Some("  ".to_string())).unwrap();
    assert_eq!(blank_body.description, "deploy");
}

#[test]
fn declared_description_wins_over_the_body_paragraph() {
    let valid =
        validate_parsed_skill(parsed("deploy", " From frontmatter "), Some("From body.".into()))
            .unwrap();
    assert_eq!(valid.description, "From frontmatter");
    let from_body = validate_parsed_skill(parsed("deploy", ""), Some("From body.".into())).unwrap();
    assert_eq!(from_body.description, "From body.");
}

#[test]
fn frontmatter_errors_are_worded_for_the_user() {
    assert_eq!(
        validate_parsed_skill(Err(FrontmatterError::NoFrontmatter), None).unwrap_err(),
        "SKILL.md has no YAML frontmatter"
    );
    assert_eq!(
        validate_parsed_skill(Err(FrontmatterError::YamlError("bad".into())), None).unwrap_err(),
        "SKILL.md frontmatter is not valid YAML: bad"
    );
    assert_eq!(
        validate_parsed_skill(Err(FrontmatterError::InvalidName("x y".into())), None).unwrap_err(),
        "SKILL.md declares an unusable name `x y`"
    );
}

#[test]
fn valid_names_normalize_to_themselves() {
    for name in ["review-pr-2", "a", "deploy-to-prod", "x1-y2-z3"] {
        assert!(is_valid_name(name));
        assert_eq!(normalize_name(name), name);
    }
}

#[test]
fn a_cut_at_the_length_cap_leaves_no_trailing_hyphen() {
    let name = format!("{} b", "a".repeat(MAX_NAME_LEN - 1));
    assert_eq!(normalize_name(&name), "a".repeat(MAX_NAME_LEN - 1));
    let leading = format!("--{}", "b".repeat(100));
    assert_eq!(normalize_name(&leading), "b".repeat(MAX_NAME_LEN));
}

#[test]
fn normalized_names_are_empty_or_valid() {
    let long = format!("{}-{}", "x".repeat(MAX_NAME_LEN - 1), "y".repeat(10));
    for name in ["Deploy To Prod", "--a---b--", "!!!", "tool-v1.2", "  ", "Ünïcode name", long.as_str()] {
        let n = normalize_name(name);
        assert!(n.is_empty() || is_valid_name(&n), "{name:?} -> {n:?}");
    }
}
