//! Volumes, devices and sizes.

use disktree::guards::MACOS_DATA_VOLUME;
use disktree::path::PathBuf;
use disktree::platform::Platform;
use disktree::size::human_bytes;
use disktree::space::{
    c_chars, device_for, device_in, device_path, foreign_mounts, foreign_mounts_for, is_snapshot,
    never_scanned, parse_mounts, space_info, volume_root, volume_root_for, BlockCounts,
    DeviceSource, SpaceInfo, VolumeSource,
};

fn path(text: &str) -> PathBuf {
    PathBuf::of(text)
}

/// Share of the volume in use, `0.0..=1.0`.
fn used_fraction(space: &SpaceInfo) -> f32 {
    if space.total == 0 {
        0.0
    } else {
        (space.used() as f64 / space.total as f64) as f32
    }
}

const OMARCHY: &str = "\
sys /sys sysfs rw 0 0
run /run tmpfs rw 0 0
/dev/mapper/root / btrfs rw,subvolid=256,subvol=/@ 0 0
/dev/mapper/root /home btrfs rw,subvolid=257,subvol=/@home 0 0
/dev/mapper/root /var/log btrfs rw,subvolid=258,subvol=/@log 0 0
/dev/mapper/root /.snapshots btrfs rw,subvolid=260,subvol=/@snapshots 0 0
/dev/nvme0n1p1 /boot vfat rw 0 0
systemd-1 /mnt/nas-home autofs rw,direct 0 0
tmpfs /tmp tmpfs rw 0 0
portal /run/user/1000/doc fuse.portal rw 0 0
";

#[test]
fn a_volume_includes_its_subvolumes_and_nothing_else() {
    let mounts = parse_mounts(OMARCHY);
    let mut foreign: Vec<String> = foreign_mounts(&mounts, &path("/"))
        .iter()
        .map(|point| point.display(Platform::Linux))
        .collect();
    foreign.sort();
    let expected = [
        "/.snapshots",
        "/boot",
        "/mnt/nas-home",
        "/run",
        "/run/user/1000/doc",
        "/sys",
        "/tmp",
    ];
    assert_eq!(foreign, expected, "/home and /var/log are the same disk");
}

#[test]
fn the_whole_disk_is_the_top_of_the_home_volume() {
    let mounts = parse_mounts(OMARCHY);
    let root = volume_root(&mounts, &path("/home/tobi"));
    assert_eq!(root, Some(path("/")), "@home is on the root disk");
    let separate = parse_mounts("/dev/sda1 / ext4 rw 0 0\n/dev/sdb1 /home ext4 rw 0 0\n");
    let root = volume_root(&separate, &path("/home/tobi"));
    assert_eq!(root, Some(path("/home")), "a separate home disk");
}

#[test]
fn a_home_scan_has_no_foreign_mounts_here() {
    let mounts = parse_mounts(OMARCHY);
    assert!(foreign_mounts(&mounts, &path("/home/tobi")).is_empty());
}

#[test]
fn the_device_is_the_longest_matching_mount() {
    let table = "\
/dev/nvme0n1p2 / btrfs rw 0 0
tmpfs /tmp tmpfs rw 0 0
/dev/sda1 /home/tobi/big\\040disk ext4 rw 0 0
";
    let device = |path: &str| device_in(table, &PathBuf::of(path));
    assert_eq!(device("/home/tobi").as_deref(), Some("/dev/nvme0n1p2"));
    assert_eq!(device("/tmp/x").as_deref(), Some("tmpfs"));
    assert_eq!(
        device("/home/tobi/big disk/a").as_deref(),
        Some("/dev/sda1"),
        "escaped spaces in mount points"
    );
    assert_eq!(device("relative"), None);
}

#[test]
fn below_no_root_the_data_volume_is_skipped_where_it_is() {
    let skipped = never_scanned(Platform::MacOs, &PathBuf::of("/r"), &PathBuf::of(""));
    assert_eq!(
        skipped,
        [PathBuf::of(MACOS_DATA_VOLUME), PathBuf::of("/Network")]
    );
}

#[test]
fn only_macos_skips_the_data_volume_and_in_the_roots_spelling() {
    for platform in [Platform::Linux, Platform::MacOs, Platform::Windows] {
        let skipped = never_scanned(platform, &path("/"), &path("/"));
        let below_system = never_scanned(platform, &path("/System/"), &path("/System"));
        let inside = never_scanned(platform, &path("/Users/tobi"), &path("/Users/tobi"));
        let itself = never_scanned(
            platform,
            &path(MACOS_DATA_VOLUME),
            &path(MACOS_DATA_VOLUME),
        );
        if platform == Platform::MacOs {
            assert_eq!(skipped, vec![path(MACOS_DATA_VOLUME), path("/Network")]);
            assert_eq!(below_system, vec![path("/System/Volumes/Data")]);
        } else {
            assert!(skipped.is_empty() && below_system.is_empty());
        }
        assert!(inside.is_empty());
        assert!(itself.is_empty(), "asking for it by name scans it");
    }
}

#[test]
fn what_is_never_scanned_is_named_as_the_root_is_spelled() {
    let skipped = never_scanned(Platform::MacOs, &path("/mnt/sys"), &path("/System"));
    let spelled: Vec<String> = skipped.iter().map(|path| path.display(Platform::Linux)).collect();
    assert_eq!(spelled, ["/mnt/sys/Volumes/Data"]);
}

#[test]
fn the_home_disk_on_macos_is_the_root_and_has_a_device() {
    let mounted_on = VolumeSource::FileSystem(Some(b"/System/Volumes/Data\0\0junk".to_vec()));
    assert_eq!(volume_root_for(&mounted_on), Some(path("/")));
    let other = VolumeSource::FileSystem(Some(b"/Volumes/Big\0".to_vec()));
    assert_eq!(volume_root_for(&other), Some(path("/Volumes/Big")));
    assert_eq!(volume_root_for(&VolumeSource::FileSystem(Some(vec![0]))), None);
    let device = device_for(&DeviceSource::FileSystem(Some(b"/dev/disk3s5\0".to_vec())))
        .expect("a device");
    assert!(device.starts_with("/dev/disk"), "{device}");
    assert_eq!(device_for(&DeviceSource::FileSystem(Some(vec![0, 1]))), None);
    assert_eq!(device_path(&path("/")), path(MACOS_DATA_VOLUME));
    assert_eq!(device_path(&path("/Volumes/x")), path("/Volumes/x"));
}

#[test]
fn a_real_volume_reports_plausible_numbers() {
    let space = space_info(BlockCounts {
        fragment: 4096,
        block: 1024,
        total: 1000,
        free: 300,
        available: 250,
    });
    assert_eq!(
        space,
        SpaceInfo {
            total: 4_096_000,
            free: 1_228_800,
            available: 1_024_000,
        }
    );
    assert!(space.free <= space.total, "{space:?}");
    assert!(space.available <= space.free, "{space:?}");
    assert!((0.0..=1.0).contains(&used_fraction(&space)), "{space:?}");
}

#[test]
fn block_counts_saturate_and_fall_back_to_the_block_size() {
    let space = space_info(BlockCounts {
        fragment: 0,
        block: 512,
        total: u64::MAX,
        free: 2,
        available: 1,
    });
    assert_eq!(
        space,
        SpaceInfo {
            total: u64::MAX,
            free: 1024,
            available: 512,
        }
    );
}

#[test]
fn projecting_removal_cannot_exceed_the_volume() {
    let space = SpaceInfo {
        total: 1000,
        free: 100,
        available: 100,
    };
    let after = space.after_removing(50);
    assert_eq!(after.available, 150);
    assert_eq!(after.free, 150);
    assert_eq!(after.total, 1000);

    let capped = space.after_removing(10_000);
    assert_eq!(capped.available, 1000);
    assert_eq!(capped.used(), 0);
    assert!((used_fraction(&capped) - 0.0).abs() < f32::EPSILON);
}

#[test]
fn used_fraction_handles_an_empty_volume_report() {
    let space = SpaceInfo::default();
    assert_eq!(space.used(), 0);
    assert!((used_fraction(&space) - 0.0).abs() < f32::EPSILON);
}

#[test]
fn a_report_with_more_free_than_there_is_uses_nothing() {
    let space = SpaceInfo {
        total: 10,
        free: 20,
        available: 15,
    };
    assert_eq!(space.used(), 0);
    assert_eq!(space.after_removing(u64::MAX).free, 10);
}

#[test]
fn mount_rows_are_read_by_their_columns() {
    let mounts = parse_mounts("a /x\\040y\\011z ext4 rw,noatime 0 0\nshort /z\n");
    assert_eq!(mounts.len(), 1, "a row without its columns is passed over");
    assert_eq!(mounts[0].source, "a");
    assert_eq!(mounts[0].point, path("/x y\\011z"));
    assert_eq!(mounts[0].fstype, "ext4");
    assert_eq!(mounts[0].options, "rw,noatime");
}

#[test]
fn snapshot_subvolumes_are_no_part_of_a_disk() {
    let mounts = parse_mounts(OMARCHY);
    let snapshots: Vec<String> = mounts
        .iter()
        .filter(|mount| is_snapshot(mount))
        .map(|mount| mount.point.display(Platform::Linux))
        .collect();
    assert_eq!(snapshots, ["/.snapshots"]);
}

#[test]
fn every_platform_names_its_volume() {
    let proc = |table: Option<&str>| VolumeSource::Proc {
        table: table.map(str::to_string),
        path: path("/home/tobi"),
    };
    assert_eq!(volume_root_for(&proc(Some(OMARCHY))), Some(path("/")));
    assert_eq!(volume_root_for(&proc(None)), None);
    let device = |table: Option<&str>| {
        device_for(&DeviceSource::Proc {
            table: table.map(str::to_string),
            path: path("/boot/x"),
        })
    };
    assert_eq!(device(Some(OMARCHY)).as_deref(), Some("/dev/nvme0n1p1"));
    assert_eq!(device(None), None);
    let drive = PathBuf::build(
        Platform::Windows,
        vec![
            disktree::path::Component::Prefix(disktree::path::Prefix::Disk(b'C')),
            disktree::path::Component::RootDir,
        ],
    );
    assert_eq!(
        device_for(&DeviceSource::Volume(Some(drive.clone()))).as_deref(),
        Some(r"C:\")
    );
    assert_eq!(
        volume_root_for(&VolumeSource::Volume(Some(drive.clone()))),
        Some(drive)
    );
    assert_eq!(volume_root_for(&VolumeSource::Volume(None)), None);
    assert_eq!(device_for(&DeviceSource::Volume(None)), None);
}

#[test]
fn foreign_mounts_come_from_the_table_or_not_at_all() {
    assert_eq!(
        foreign_mounts_for(Platform::Windows, None, &path("/")),
        Some(Vec::new())
    );
    assert_eq!(foreign_mounts_for(Platform::Linux, None, &path("/")), None);
    let mounts = foreign_mounts_for(Platform::Linux, Some(OMARCHY), &path("/run"));
    assert_eq!(mounts, Some(vec![path("/run/user/1000/doc")]));
}

#[test]
fn c_text_ends_at_its_nul_and_is_shown_where_it_is_not_utf8() {
    assert_eq!(c_chars(b"abc\0def"), "abc");
    assert_eq!(c_chars(b"abc"), "abc");
    assert_eq!(c_chars(b"\xffx\0"), "\u{fffd}x");
    assert_eq!(c_chars(b""), "");
}

#[test]
fn sizes_are_written_in_binary_units() {
    assert_eq!(human_bytes(0), "0 B");
    assert_eq!(human_bytes(1023), "1023 B");
    assert_eq!(human_bytes(1024), "1.0 KiB");
    assert_eq!(human_bytes(9 << 30), "9.0 GiB");
    assert_eq!(human_bytes(10 << 30), "10 GiB");
    assert_eq!(human_bytes(500 << 30), "500 GiB");
    assert_eq!(human_bytes(1536 << 20), "1.5 GiB");
}

#[test]
fn two_removals_count_like_one_of_both() {
    let space = SpaceInfo {
        total: 1000,
        free: 100,
        available: 40,
    };
    for (one, two) in [(0, 0), (50, 70), (900, 1), (950, 20), (u64::MAX, 1)] {
        let apart = space.after_removing(one).after_removing(two);
        assert_eq!(apart, space.after_removing(one.saturating_add(two)));
        assert!(apart.used() <= space.used());
    }
}
