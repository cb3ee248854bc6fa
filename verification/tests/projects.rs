use fung::paths::PathStyle;
use fung::projects::{missing_project_storage, new_project, project_dir, renames_placeholder};

#[test]
fn a_project_lives_under_the_projects_directory() {
    assert_eq!(project_dir(PathStyle::Posix, "/data/fung", "p1"), "/data/fung/projects/p1");
    assert_eq!(project_dir(PathStyle::Posix, "/data/fung/", "p1"), "/data/fung/projects/p1");
    assert_eq!(project_dir(PathStyle::Windows, "C:\\Fung", "p1"), "C:\\Fung\\projects\\p1");
    let a = new_project(PathStyle::Posix, "/data");
    let b = new_project(PathStyle::Posix, "/data");
    assert_eq!(a.id.len(), 36);
    assert_ne!(a.id, b.id, "every project gets its own id");
    assert_eq!(a.storage_path, format!("/data/projects/{}", a.id));
}

#[test]
fn only_a_placeholder_name_gives_way_to_a_title() {
    assert!(renames_placeholder("Weekly sync", Some("การประชุมใหม่"), "การประชุมใหม่"));
    assert!(!renames_placeholder("  ", Some("การประชุมใหม่"), "การประชุมใหม่"));
    assert!(!renames_placeholder("Weekly sync", Some("Renamed by hand"), "การประชุมใหม่"));
    assert!(!renames_placeholder("Weekly sync", None, "การประชุมใหม่"));
    assert_eq!(missing_project_storage("p9"), "ไม่พบที่เก็บของโปรเจกต์ p9");
}
