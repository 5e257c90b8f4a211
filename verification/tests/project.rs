use jiff::Timestamp;
use tasky::Project;

#[test]
fn projects_need_a_slug_and_name() {
    let now = Timestamp::UNIX_EPOCH;
    let new = |slug: &str, name: &str| {
        Project::new("P".into(), None, slug.into(), name.into(), None, None, now)
    };
    assert!(new("tasky", "Tasky").is_ok());
    assert!(new("Tasky", "Tasky").is_err());
    assert!(new("tasky", " ").is_err());
    let nested = Project::new(
        "C".into(),
        Some("P".into()),
        "child".into(),
        "Child".into(),
        None,
        None,
        now,
    )
    .unwrap();
    assert_eq!(nested.parent_id.as_deref(), Some("P"));
    assert!(
        Project::new(
            "P".into(),
            Some("P".into()),
            "p".into(),
            "P".into(),
            None,
            None,
            now
        )
        .is_err(),
        "self parent"
    );
}

#[test]
fn repo_path_and_url_are_independent_and_optional() {
    let now = Timestamp::UNIX_EPOCH;
    let mut project = Project::new(
        "P".into(),
        None,
        "tasky".into(),
        "Tasky".into(),
        Some(" ".into()),
        Some("git@example.com:tasky.git".into()),
        now,
    )
    .unwrap();
    assert_eq!(project.repo_path, None, "blank is dropped");
    assert_eq!(
        project.repo_url.as_deref(),
        Some("git@example.com:tasky.git")
    );
    project.set_repo_path(Some("/home/me/tasky".into()));
    project.set_repo_url(None);
    assert_eq!(project.repo_path.as_deref(), Some("/home/me/tasky"));
    assert_eq!(project.repo_url, None);
}
