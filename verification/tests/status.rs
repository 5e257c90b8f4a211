use tasky::{GoalStatus, LinkKind, TaskStatus};

#[test]
fn text_forms_round_trip() {
    for status in &TaskStatus::ALL {
        assert_eq!(status.as_str().parse::<TaskStatus>().unwrap(), *status);
    }
    for status in &GoalStatus::ALL {
        assert_eq!(status.as_str().parse::<GoalStatus>().unwrap(), *status);
    }
    assert!("bogus".parse::<TaskStatus>().is_err());
    assert_eq!("commit".parse::<LinkKind>().unwrap(), LinkKind::Commit);
    assert_eq!(
        "ready_for_merge".parse::<TaskStatus>().unwrap(),
        TaskStatus::ReadyForMerge
    );
    assert!(TaskStatus::Testing.is_open());
    assert!(!TaskStatus::Cancelled.is_open());
}
