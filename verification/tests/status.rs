use firstaide::status::EnvironmentStatus;

#[test]
fn status_codes() {
    assert_eq!(EnvironmentStatus::Okay.code(), 0);
    assert_eq!(EnvironmentStatus::Stale.code(), 1);
    assert_eq!(EnvironmentStatus::Unknown.code(), 2);
}

#[test]
fn status_messages() {
    assert_eq!(EnvironmentStatus::Okay.display(), "Environment is up to date!");
    assert_eq!(EnvironmentStatus::Stale.display(), "Environment is STALE!");
    assert_eq!(
        EnvironmentStatus::Unknown.display(),
        "Environment not built or otherwise broken!"
    );
}
