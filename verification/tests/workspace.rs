use ccvl::workspace::{Workspace, WorkspaceError};

fn repository() -> Workspace {
    Workspace::at("/repo", Some("/repo".to_string()), true).unwrap()
}

#[test]
fn parent_escape_is_rejected() {
    let workspace = repository();
    assert!(workspace.existing_inside("../applications", None).is_err());
    assert!(workspace.existing_inside("../applications", Some("/applications".to_string())).is_err());
}

#[test]
fn paths_inside_the_root_are_accepted() {
    let workspace = repository();
    assert_eq!(workspace.path("cvl/general"), "/repo/cvl/general");
    assert_eq!(workspace.path("/elsewhere"), "/elsewhere");
    assert_eq!(
        workspace.existing_inside("cvl", Some("/repo/cvl".to_string())).unwrap(),
        "/repo/cvl"
    );
    assert_eq!(workspace.relative("/repo/cvl/README.md").unwrap(), "cvl/README.md");
    assert!(matches!(workspace.relative("/other/x"), Err(WorkspaceError::NotRelative(_))));
    assert_eq!(
        workspace.typst_path("cvl/general/profile.json", Some("/repo/cvl/general/profile.json".to_string())).unwrap(),
        "/cvl/general/profile.json"
    );
}

#[test]
fn a_workspace_needs_its_manifest() {
    assert!(matches!(Workspace::at("/x", Some("/x".to_string()), false), Err(WorkspaceError::NotWorkspace(_))));
    assert!(matches!(Workspace::at("/x", None, true), Err(WorkspaceError::CannotResolve(_))));
    assert!(matches!(Workspace::at("/x", Some(String::new()), true), Err(WorkspaceError::CannotResolve(_))));
    assert!(matches!(Workspace::at("x", Some("x".to_string()), true), Err(WorkspaceError::CannotResolve(_))));
}

#[test]
fn relative_undoes_path() {
    let ws = Workspace::at("/repo", Some("/repo".to_string()), true).unwrap();
    for r in ["", "cvl/general/profile.json", "a"] {
        assert_eq!(ws.relative(&ws.path(r)).unwrap(), r);
    }
    assert!(ws.root().starts_with('/'));
}
