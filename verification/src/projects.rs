//! Projects: where a new project's files go, and when a project's
//! placeholder name gives way to a title.
use vstd::prelude::*;
use crate::paths::{join, join_spec, PathStyle};
use crate::text::{copy_string, push_text, str_eq};

verus! {

/// `{root}/projects/{id}`: where a project's files live.
pub open spec fn project_dir_spec(style: PathStyle, storage_root: Seq<char>, id: Seq<char>) -> Seq<char> {
    join_spec(style, join_spec(style, storage_root, "projects"@), id)
}

/// Where the files of project `id` live under `storage_root`.
pub fn project_dir(style: PathStyle, storage_root: &str, id: &str) -> (res: String)
    ensures
        res@ == project_dir_spec(style, storage_root@, id@),
{
    let projects = join(style, storage_root, "projects");
    join(style, projects.as_str(), id)
}

/// A new project: a fresh id and the directory its files will live in.
#[derive(Debug)]
pub struct NewProject {
    pub id: String,
    pub storage_path: String,
}

/// A new project under `storage_root`, with a fresh random id (a UUID's
/// 36 characters).
pub fn new_project(style: PathStyle, storage_root: &str) -> (res: NewProject)
    ensures
        res.id@.len() == 36,
        res.storage_path@ == project_dir_spec(style, storage_root@, res.id@),
{
    let id = crate::live_meeting::new_uuid();
    let storage_path = project_dir(style, storage_root, id.as_str());
    NewProject { id, storage_path }
}

/// A project still called `placeholder` takes `title` as its name, once the
/// title has text.
pub open spec fn takes_title(title: Seq<char>, current_name: Option<Seq<char>>, placeholder: Seq<char>) -> bool {
    crate::text::trim_spec(title).len() > 0 && current_name == Some(placeholder)
}

/// Whether a project named `current_name` is renamed to `title`: only while
/// it still bears the placeholder it was created with, and only to a title
/// with text.
pub fn renames_placeholder(title: &str, current_name: Option<&str>, placeholder: &str) -> (res: bool)
    ensures
        res == takes_title(
            title@,
            match current_name {
                Some(n) => Some(n@),
                None => None,
            },
            placeholder@,
        ),
{
    let trimmed = crate::text::trim(&crate::text::chars_of(title));
    if trimmed.len() == 0 {
        return false;
    }
    match current_name {
        Some(n) => str_eq(n, placeholder),
        None => false,
    }
}

/// Why a project's files cannot be found: `ไม่พบที่เก็บของโปรเจกต์ {id}`.
pub fn missing_project_storage(project_id: &str) -> (res: String)
    ensures
        res@ == "ไม่พบที่เก็บของโปรเจกต์ "@ + project_id@,
{
    let mut m = copy_string("ไม่พบที่เก็บของโปรเจกต์ ");
    push_text(&mut m, project_id);
    m
}

} // verus!
