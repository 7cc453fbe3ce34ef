use trellis::backup::{
    backup_due, backup_filename, backup_summary, delivery_outcome, disk_dir, plan_backup, rclone_dest, retention_victims,
    sftp_target, stamp, stamp_secs, BackupConfig, BackupDest, Delivery, DestKind,
};
use trellis::civil::civil_from_days_exec;

#[test]
fn stamp_matches_known_epoch() {
    // 2026-07-30 14:25:30 UTC = 1785421530
    let t = std::time::UNIX_EPOCH + std::time::Duration::from_secs(1_785_421_530);
    assert_eq!(stamp(t), "20260730-142530");
    // epoch itself
    assert_eq!(stamp(std::time::UNIX_EPOCH), "19700101-000000");
}

#[test]
fn stamps_cross_a_leap_day_and_a_year() {
    assert_eq!(stamp_secs(0), "19700101-000000");
    assert_eq!(stamp_secs(86_399), "19700101-235959");
    assert_eq!(stamp_secs(951_782_399), "20000228-235959");
    assert_eq!(stamp_secs(951_782_400), "20000229-000000");
    assert_eq!(stamp_secs(951_868_800), "20000301-000000");
    assert_eq!(stamp_secs(4_102_444_799), "20991231-235959");
}

#[test]
fn later_instants_stamp_names_that_sort_later() {
    let instants = [0u64, 59, 60, 3_599, 3_600, 86_399, 86_400, 951_782_399, 951_782_400, 1_785_421_530, 4_102_444_799];
    for w in instants.windows(2) {
        assert!(stamp_secs(w[0]) < stamp_secs(w[1]), "{} vs {}", w[0], w[1]);
    }
}

#[test]
fn day_zero_is_the_epoch() {
    assert_eq!(civil_from_days_exec(0), (1970, 1, 1));
    assert_eq!(civil_from_days_exec(11_016), (2000, 2, 29));
    assert_eq!(civil_from_days_exec(59), (1970, 3, 1));
}

#[test]
fn destinations_label_themselves() {
    assert_eq!(DestKind::Disk.label(), "Disk");
    assert_eq!(DestKind::Sftp.label(), "Network (SFTP)");
    assert_eq!(DestKind::Rclone.label(), "Cloud (rclone)");
    let mut d = BackupDest::new(DestKind::Disk);
    assert!(d.enabled);
    assert_eq!(d.display(), "(unset) [Disk]");
    d.target = "/mnt/usb".into();
    assert_eq!(d.display(), "/mnt/usb [Disk]");
    d.name = "   ".into();
    assert_eq!(d.display(), "/mnt/usb [Disk]");
    d.name = "usb".into();
    assert_eq!(d.display(), "usb [Disk]");
    assert!(trellis::backup::default_true());
}

#[test]
fn default_config_is_off_with_fourteen_kept() {
    let c = BackupConfig::default();
    assert!(!c.enabled);
    assert_eq!(c.interval_mins, 360);
    assert_eq!(c.retention, 14);
    assert!(!c.encrypt);
    assert!(c.passphrase.is_empty());
    assert!(c.destinations.is_empty());
}

fn dest(kind: DestKind, name: &str, target: &str, enabled: bool) -> BackupDest {
    let mut d = BackupDest::new(kind);
    d.name = name.into();
    d.target = target.into();
    d.enabled = enabled;
    d
}

#[test]
fn only_enabled_destinations_take_part() {
    let mut c = BackupConfig::default();
    c.destinations.push(dest(DestKind::Disk, "a", "/a", true));
    c.destinations.push(dest(DestKind::Disk, "b", "/b", false));
    c.destinations.push(dest(DestKind::Rclone, "c", "r:c", true));
    assert_eq!(c.enabled_dests(), vec![0, 2]);
}

#[test]
fn a_run_without_destinations_reports_none() {
    let c = BackupConfig::default();
    let o = plan_backup("20260101-000000", &c).err().unwrap();
    assert_eq!(o.dest, "(none)");
    assert!(!o.ok);
    assert_eq!(o.detail, "no enabled destinations configured");
}

#[test]
fn encryption_without_a_passphrase_is_refused() {
    let mut c = BackupConfig::default();
    c.encrypt = true;
    c.destinations.push(dest(DestKind::Disk, "", "/a", true));
    let o = plan_backup("20260101-000000", &c).err().unwrap();
    assert_eq!(o.dest, "encryption");
    assert!(!o.ok);
    assert_eq!(o.detail, "encryption is on but the passphrase is empty");
}

#[test]
fn a_run_plans_each_enabled_destination() {
    let mut c = BackupConfig::default();
    c.retention = 3;
    c.destinations.push(dest(DestKind::Disk, "usb", "/mnt/usb", true));
    c.destinations.push(dest(DestKind::Sftp, "", "me@host:/srv", true));
    c.destinations.push(dest(DestKind::Rclone, "cloud", "remote:bk/", true));
    c.destinations.push(dest(DestKind::Sftp, "off", "bad", false));
    let p = plan_backup("20260101-000000", &c).ok().unwrap();
    assert!(!p.encrypt);
    assert_eq!(p.filename, "trellis-backup-20260101-000000.ron.gz");
    assert!(p.needs_staging);
    assert_eq!(p.steps.len(), 3);
    assert_eq!(p.steps[0].dest, "usb [Disk]");
    assert!(matches!(&p.steps[0].delivery, Delivery::Disk { dir, retention: 3 } if dir == "/mnt/usb"));
    assert_eq!(p.steps[1].dest, "me@host:/srv [Network (SFTP)]");
    assert!(matches!(&p.steps[1].delivery, Delivery::Scp { target: Ok(t) } if t == "me@host:/srv/"));
    assert!(matches!(&p.steps[2].delivery, Delivery::Rclone { dest } if dest == "remote:bk/trellis-backup-20260101-000000.ron.gz"));
}

#[test]
fn disk_only_runs_need_no_staging() {
    let mut c = BackupConfig::default();
    c.encrypt = true;
    c.passphrase = "secret".into();
    c.destinations.push(dest(DestKind::Disk, "", "/a", true));
    let p = plan_backup("X", &c).ok().unwrap();
    assert!(p.encrypt);
    assert!(!p.needs_staging);
    assert_eq!(p.filename, "trellis-backup-X.ron.gz.gpg");
}

#[test]
fn sftp_targets_are_directories() {
    assert_eq!(sftp_target("  user@h:/x  "), Ok("user@h:/x/".to_string()));
    assert_eq!(sftp_target("h:/x/"), Ok("h:/x/".to_string()));
    assert_eq!(
        sftp_target("nohost"),
        Err("SFTP target must look like host:/dir or user@host:/dir".to_string())
    );
    assert!(sftp_target("   ").is_err());
}

#[test]
fn disk_destinations_need_a_directory() {
    assert_eq!(disk_dir("  "), Err("disk destination has no directory set".to_string()));
    assert_eq!(disk_dir(" /a b "), Ok("/a b".to_string()));
}

#[test]
fn rclone_paths_join_with_one_slash() {
    assert_eq!(rclone_dest("remote:dir//", "f.gz"), "remote:dir/f.gz");
    assert_eq!(rclone_dest("remote:dir", "f.gz"), "remote:dir/f.gz");
    assert_eq!(backup_filename("S", false), "trellis-backup-S.ron.gz");
    assert_eq!(backup_filename("S", true), "trellis-backup-S.ron.gz.gpg");
}

#[test]
fn outcomes_record_ok_or_the_error() {
    let o = delivery_outcome("usb [Disk]".into(), Ok(()));
    assert!(o.ok);
    assert_eq!(o.detail, "ok");
    assert_eq!(o.dest, "usb [Disk]");
    let e = delivery_outcome("x".into(), Err("disk full".into()));
    assert!(!e.ok);
    assert_eq!(e.detail, "disk full");
}

#[test]
fn retention_prunes_the_oldest_backups() {
    let names: Vec<String> = vec![
        "trellis-backup-20260102-000000.ron.gz".into(),
        "notes.txt".into(),
        "trellis-backup-20260101-000000.ron.gz".into(),
        "trellis-backup-20260104-000000.ron.gz.part".into(),
        "trellis-backup-20260103-000000.ron.gz".into(),
    ];
    assert_eq!(
        retention_victims(&names, 2),
        vec!["trellis-backup-20260101-000000.ron.gz".to_string()]
    );
    assert_eq!(retention_victims(&names, 1).len(), 2);
    assert!(retention_victims(&names, 0).is_empty());
    assert!(retention_victims(&names, 3).is_empty());
}

#[test]
fn a_finished_run_is_summed_up() {
    let ok = delivery_outcome("usb [Disk]".into(), Ok(()));
    let bad = delivery_outcome("nas [Network (SFTP)]".into(), Err("`scp` failed: denied".into()));
    let bad2 = delivery_outcome("c [Cloud (rclone)]".into(), Err("x".into()));
    assert_eq!(backup_summary(&vec![]), "Backed up to 0 destination(s) OK");
    let all_ok = vec![delivery_outcome("a".into(), Ok(())), ok];
    assert_eq!(backup_summary(&all_ok), "Backed up to 2 destination(s) OK");
    let mixed = vec![delivery_outcome("a".into(), Ok(())), bad, bad2];
    assert_eq!(
        backup_summary(&mixed),
        "Backup: 2/3 failed — nas [Network (SFTP)]: `scp` failed: denied"
    );
}

#[test]
fn scheduled_backups_wait_for_their_interval() {
    let mut c = BackupConfig::default();
    assert!(!backup_due(&c, false, None));
    c.enabled = true;
    assert!(backup_due(&c, false, None));
    assert!(!backup_due(&c, true, None));
    assert!(!backup_due(&c, false, Some(360 * 60 - 1)));
    assert!(backup_due(&c, false, Some(360 * 60)));
    c.interval_mins = 0;
    assert!(!backup_due(&c, false, None));
    c.interval_mins = u64::MAX;
    assert!(!backup_due(&c, false, Some(u64::MAX)));
}

#[test]
fn civil_next_day_crosses_month_and_year_ends() {
    assert_eq!(civil_from_days_exec(30), (1970, 1, 31));
    assert_eq!(civil_from_days_exec(31), (1970, 2, 1));
    assert_eq!(civil_from_days_exec(364), (1970, 12, 31));
    assert_eq!(civil_from_days_exec(365), (1971, 1, 1));
    assert_eq!(civil_from_days_exec(11_017), (2000, 3, 1));
    // 2100 is not a leap year: February 28 is followed by March 1.
    assert_eq!(civil_from_days_exec(47_540), (2100, 2, 28));
    assert_eq!(civil_from_days_exec(47_541), (2100, 3, 1));
}

#[test]
fn a_time_before_the_epoch_stamps_as_the_epoch() {
    let before = std::time::UNIX_EPOCH - std::time::Duration::from_secs(90);
    assert_eq!(stamp(before), "19700101-000000");
    let later = std::time::UNIX_EPOCH + std::time::Duration::from_millis(86_400_999);
    assert_eq!(stamp(later), "19700102-000000");
}
