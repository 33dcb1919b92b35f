use everyfile::coordinator::{
    admit_volume, after_projection, after_rebuild, after_scan, data_directory,
    first_step, is_opted_in, locate_root, AdmissionError, FirstIndexStep, VolumeConfiguration,
};
use everyfile::model::{Coverage, FileIndexState, Freshness, RootCoverage};
use everyfile::paths::FilePath;
use everyfile::projection::SearchProjection;
use everyfile::volume::{
    sort_volumes, volume_containing, volume_from_mount, Volume, VolumeKind,
};
use everyfile::volume_lifecycle::{MountTransition, VolumeLifecycle};

fn mounted(id: u64, path: &str, local: bool) -> Volume {
    volume_from_mount(
        id,
        Some(format!("uuid-{id}")),
        FilePath::new(path),
        "apfs".into(),
        local,
    )
}

fn enabled(id: u64, enabled: bool) -> VolumeConfiguration {
    VolumeConfiguration {
        identity: format!("uuid-{id}"),
        enabled,
    }
}

#[test]
fn chooses_the_deepest_mount_boundary() {
    let volumes = vec![
        Volume {
            id: 1,
            identity: "internal".into(),
            mount_path: FilePath::new("/"),
            filesystem: "apfs".into(),
            local: true,
            internal: true,
        },
        Volume {
            id: 2,
            identity: "external".into(),
            mount_path: FilePath::new("/Volumes/Test"),
            filesystem: "apfs".into(),
            local: true,
            internal: false,
        },
    ];
    assert_eq!(
        volume_containing(&volumes, &FilePath::new("/Volumes/Test/report.txt"))
            .unwrap()
            .id,
        2
    );
}

#[test]
fn only_internal_local_volumes_are_enabled_by_default() {
    let volume = |local, internal| Volume {
        id: 1,
        identity: "id".into(),
        mount_path: FilePath::new("/Volumes/Test"),
        filesystem: "apfs".into(),
        local,
        internal,
    };
    assert!(volume(true, true).enabled_by_default());
    assert!(!volume(true, false).enabled_by_default());
    assert_eq!(volume(false, false).kind(), VolumeKind::Network);
}

#[test]
fn removal_during_reconciliation_keeps_coverage_and_becomes_offline() {
    let mut lifecycle = VolumeLifecycle::default();
    lifecycle.restore_committed(
        "disk".into(),
        FilePath::new("/Volumes/Disk"),
        Coverage::Partial,
        true,
    );
    assert!(lifecycle.begin_reconciliation("disk"));
    assert!(lifecycle.removed("disk"));
    let volume = lifecycle.get("disk").unwrap();
    assert_eq!(volume.freshness, Freshness::Offline);
    assert_eq!(volume.coverage, Some(Coverage::Partial));
    assert!(!volume.reconciliation_in_flight);
}

#[test]
fn matching_identity_reconnects_but_reused_path_does_not() {
    let mut lifecycle = VolumeLifecycle::default();
    lifecycle.restore_committed(
        "original".into(),
        FilePath::new("/Volumes/Disk"),
        Coverage::Complete,
        false,
    );
    assert_eq!(
        lifecycle.mounted("original", FilePath::new("/Volumes/Renamed")),
        MountTransition::Reconnected
    );
    assert_eq!(
        lifecycle.get("original").unwrap().freshness,
        Freshness::CatchingUp
    );
    assert_eq!(
        lifecycle.mounted("different", FilePath::new("/Volumes/Renamed")),
        MountTransition::IdentityMismatch
    );
}

#[test]
fn unknown_volumes_change_nothing() {
    let mut lifecycle = VolumeLifecycle::default();
    assert!(!lifecycle.removed("disk"));
    assert!(!lifecycle.begin_reconciliation("disk"));
    assert!(!lifecycle.committed("disk", Coverage::Complete));
    assert_eq!(
        lifecycle.mounted("disk", FilePath::new("/Volumes/Disk")),
        MountTransition::Connected
    );
    assert!(lifecycle.get("disk").is_none());
}

#[test]
fn a_known_volume_is_reconciled_unless_it_is_gone() {
    let mut lifecycle = VolumeLifecycle::default();
    let place = FilePath::new("/Volumes/Disk");
    lifecycle.restore_committed("disk".into(), place.clone(), Coverage::Partial, false);
    lifecycle.restore_committed("other".into(), FilePath::new("/Volumes/Other"), Coverage::Partial, true);
    assert!(!lifecycle.begin_reconciliation("disk"));
    assert_eq!(lifecycle.mounted("disk", place.clone()), MountTransition::Reconnected);
    assert_eq!(lifecycle.mounted("disk", place), MountTransition::Unchanged);
    assert!(lifecycle.begin_reconciliation("disk"));
    assert!(lifecycle.get("disk").unwrap().reconciliation_in_flight);
    assert!(lifecycle.committed("disk", Coverage::Complete));
    let volume = lifecycle.get("disk").unwrap();
    assert_eq!(volume.freshness, Freshness::Current);
    assert_eq!(volume.coverage, Some(Coverage::Complete));
    assert!(!volume.reconciliation_in_flight);
    assert_eq!(lifecycle.get("other").unwrap().coverage, Some(Coverage::Partial));
}

#[test]
fn mounts_are_described_by_place() {
    let internal = mounted(1, "/System/Volumes/Data", true);
    assert_eq!(internal.kind(), VolumeKind::InternalLocal);
    let external = mounted(2, "/Volumes/Disk", true);
    assert_eq!(external.kind(), VolumeKind::ExternalLocal);
    assert!(external.can_be_enabled());
    let network = mounted(3, "/Volumes/Share", false);
    assert_eq!(network.kind(), VolumeKind::Network);
    assert!(!network.can_be_enabled());
    let nameless = volume_from_mount(4, None, FilePath::new("/Volumes/X"), "msdos".into(), true);
    assert_eq!(nameless.identity, "mount:/Volumes/X");
    assert_eq!(nameless.filesystem, "msdos");
}

#[test]
fn volumes_sort_by_mount_path_and_ties_keep_their_order() {
    let sorted = sort_volumes(vec![
        mounted(1, "/b", true),
        mounted(2, "/a/c", true),
        mounted(3, "/b/", true),
        mounted(4, "/a", true),
    ]);
    let ids: Vec<_> = sorted.iter().map(|volume| volume.id).collect();
    assert_eq!(ids, vec![4, 2, 1, 3]);
}

#[test]
fn the_last_of_equally_deep_volumes_holds_the_root() {
    let volumes = [mounted(1, "/", true), mounted(2, "/a", true), mounted(3, "/a", true)];
    let holder = |root: &str| {
        volume_containing(&volumes, &FilePath::new(root)).map(|volume| volume.id)
    };
    assert_eq!(holder("/a/b"), Some(3));
    assert_eq!(holder("/ab"), Some(1));
    assert_eq!(holder("relative"), None);
}

#[test]
fn a_root_is_admitted_on_an_enabled_local_volume() {
    let volumes = [mounted(1, "/", true), mounted(2, "/Volumes/Share", false)];
    let configured = [enabled(1, true), enabled(2, true), enabled(1, false)];
    let verdict = |configured: &[VolumeConfiguration], root: &str| {
        let volume = locate_root(&volumes, &FilePath::new(root))?;
        admit_volume(volume, configured).map(|()| volume.id)
    };
    assert_eq!(verdict(&configured, "/Users"), Ok(1));
    assert_eq!(verdict(&configured, "/Volumes/Share/x"), Err(AdmissionError::NotOptedIn));
    assert_eq!(verdict(&configured[1..], "/Users"), Err(AdmissionError::NotOptedIn));
    assert_eq!(
        locate_root(&[], &FilePath::new("/Users")).err(),
        Some(AdmissionError::NotOnAVolume)
    );
    assert!(!is_opted_in(&configured, "uuid-9"));
    assert_eq!(
        AdmissionError::NotOnAVolume.message(),
        "configured root is not on a discovered volume"
    );
    assert_eq!(
        AdmissionError::NotOptedIn.message(),
        "configured external volume requires explicit opt-in"
    );
}

#[test]
fn data_is_kept_where_it_was_asked_for_or_at_home() {
    let path = |text: &str| FilePath::new(text);
    assert_eq!(
        data_directory(Some(path("/data")), Some(path("/home/me")), path("/tmp")).as_str(),
        "/data"
    );
    assert_eq!(
        data_directory(None, Some(path("/home/me")), path("/tmp")).as_str(),
        "/home/me/Library/Application Support/Everyfile"
    );
    assert_eq!(
        data_directory(None, None, path("/tmp/")).as_str(),
        "/tmp/Library/Application Support/Everyfile"
    );
}

#[test]
fn a_root_is_located_before_its_volume_is_admitted() {
    let volumes = vec![mounted(2, "/Volumes/Test", true), mounted(3, "/Volumes/Net", false)];
    let inside = locate_root(&volumes, &FilePath::new("/Volumes/Test/a")).unwrap();
    assert_eq!(inside.id, 2);
    assert_eq!(
        locate_root(&volumes, &FilePath::new("/elsewhere")).err(),
        Some(AdmissionError::NotOnAVolume)
    );
    assert_eq!(admit_volume(inside, &[enabled(2, true)]), Ok(()));
    assert_eq!(admit_volume(inside, &[enabled(2, false)]), Err(AdmissionError::NotOptedIn));
    assert_eq!(admit_volume(inside, &[]), Err(AdmissionError::NotOptedIn));
    assert_eq!(
        admit_volume(&volumes[1], &[enabled(3, true)]),
        Err(AdmissionError::NotOptedIn)
    );
}

#[test]
fn a_committed_root_is_searched_without_another_scan() {
    let summary = RootCoverage {
        volume_id: 1,
        root: FilePath::new("/root"),
        coverage: Coverage::Partial,
        skipped: vec![],
    };
    let current = FirstIndexStep::Publish(FileIndexState::Current {
        coverage: Coverage::Partial,
    });
    assert_eq!(first_step(Some(&summary)), FirstIndexStep::OpenProjection);
    assert_eq!(after_projection(None, Coverage::Partial), current);
    for bytes in [&b""[..], b"EVFLIDX\0", b"something else entirely"] {
        let refused = SearchProjection::open(bytes, Some(1)).err();
        assert!(refused.is_some());
        assert_eq!(
            after_projection(refused, Coverage::Partial),
            FirstIndexStep::RebuildProjection
        );
    }
    assert_eq!(after_rebuild(Coverage::Partial), current);
}

#[test]
fn an_unknown_root_is_scanned_before_it_is_published() {
    assert_eq!(first_step(None), FirstIndexStep::Scan);
    assert_eq!(after_scan(), FirstIndexStep::RebuildProjection);
    assert_eq!(
        after_rebuild(Coverage::Complete),
        FirstIndexStep::Publish(FileIndexState::Current {
            coverage: Coverage::Complete
        })
    );
}

#[test]
fn known_volumes_stay_in_possible_states() {
    let mut lifecycle = VolumeLifecycle::default();
    for round in 0..3u8 {
        for identity in ["a", "b"] {
            lifecycle.mounted(identity, FilePath::new("/Volumes/X"));
            lifecycle.begin_reconciliation(identity);
            if round == 1 && identity == "a" {
                lifecycle.restore_committed(
                    identity.into(),
                    FilePath::new("/Volumes/A"),
                    Coverage::Partial,
                    false,
                );
            }
            if round == 2 {
                lifecycle.removed(identity);
                lifecycle.mounted(identity, FilePath::new("/Volumes/A"));
                lifecycle.begin_reconciliation(identity);
            }
        }
    }
    assert!(lifecycle.get("b").is_none());
    let volume = lifecycle.get("a").unwrap();
    assert_eq!(volume.identity, "a");
    assert_eq!(volume.coverage, Some(Coverage::Partial));
    assert!(volume.reconciliation_in_flight);
    assert_eq!(volume.freshness, Freshness::CatchingUp);
}
