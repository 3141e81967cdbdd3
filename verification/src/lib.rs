//! Skill marketplace core: parsing skill sources, validating skill names and
//! paths, tracking installs in a lockfile, the registry's request and
//! response rules, the decisions of installing, updating and removing skills,
//! and the wording of the `grok skill` command.

pub mod text;
pub mod paths;
pub mod order;
pub mod sorting;
pub mod skill_source;
pub mod skill_validate;
pub mod skill_scope;
pub mod skill_lock;
pub mod skill_registry;
pub mod skill_install;
pub mod skill_cmd;
