//! A project-directory bookmark manager: bookmarks (an alias and a path),
//! named profiles of bookmarks, and a buffer of files to copy, all kept as
//! small JSON files. This library holds the reading and writing of those
//! files and the decisions of each command; the program around it does the
//! file system and terminal work.

pub mod commands;
pub mod json;
pub mod paths;
pub mod project;
pub mod roundtrip;
pub mod text;

pub use commands::{
    ProfileChoice, activate_project, cd_command, is_active, is_profile_file, list_output, numbered_line,
    paste_command, pop_buffer, profile_files, push_buffer, register_project, remove_project,
    resolve_alias_or_index, select_profile, update_target,
};
pub use json::{JsonValue, Parser, parse_json};
pub use paths::{
    WalkStep, active_file, buffer_file, is_absolute_path, join_path, profile_path, profiles_dir,
    projects_file, state_dir, walk_up_for_file,
};
pub use project::{
    Project, buffer_from_text, buffer_to_json, json_object_to_project, json_to_buffer,
    json_to_profile_projects, json_to_projects, profile_from_text, profile_to_json,
    projects_from_text, projects_to_json,
};
pub use text::{escape_json_str, parse_usize, shell_quote, trim_text};
