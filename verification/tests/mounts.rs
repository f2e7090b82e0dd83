//! The mount table and its cache.

use disktree::mounts::{
    cached_mounts, ensure_linux_mount_boundaries, mount_at_or_below, mount_below, mount_points,
    parse_linux_mount_points, parse_macos_mounts, prime_mount_points, read_mount_points,
    MountCache, MountSource, MountTableError, MOUNTS_FRESH,
};
use disktree::guards::MACOS_DATA_VOLUME;
use disktree::path::PathBuf;

fn path(text: &str) -> PathBuf {
    PathBuf::of(text)
}

#[test]
fn a_cold_or_failed_mount_cache_blocks_planning() {
    let cold = MountCache {
        read: None,
        mounts: None,
        refreshing: true,
    };
    assert!(cached_mounts(&cold).is_err());
    assert_eq!(
        cached_mounts(&cold).expect_err("cold cache"),
        "the mount table is still loading"
    );

    let failed = MountCache {
        read: Some(0),
        mounts: Some(Err("mount table unavailable".into())),
        refreshing: false,
    };
    assert_eq!(
        cached_mounts(&failed).expect_err("failed cache"),
        "mount table unavailable"
    );
}

#[test]
fn a_mount_table_without_its_root_is_rejected() {
    let error = parse_linux_mount_points("tmpfs /run tmpfs rw,nosuid,nodev 0 0\n")
        .expect_err("incomplete mount table");
    assert!(error.message().contains("mount table root"));
}

#[test]
fn malformed_mount_rows_and_escapes_are_rejected() {
    for table in [
        "/dev/root / ext4 rw 0 0\nmalformed\n",
        "/dev/root / ext4 rw 0 0\n/dev/disk /bad\\999 ext4 rw 0 0\n",
        "/dev/root / ext4 rw 0 0\n/dev/disk relative ext4 rw 0 0\n",
        "/dev/root / ext4 rw 0 0\n/dev/disk /bad\\000 ext4 rw 0 0\n",
    ] {
        assert!(
            parse_linux_mount_points(table).is_err(),
            "accepted malformed mount table {table:?}"
        );
    }
}

#[test]
fn mount_paths_decode_all_kernel_whitespace_escapes() {
    let mounts = parse_linux_mount_points(
        "/dev/root / ext4 rw 0 0\n/dev/data /mnt/a\\011b\\012c\\134d ext4 rw 0 0\n",
    )
    .expect("valid escaped mount table");
    assert!(mounts.contains(&path("/mnt/a\tb\nc\\d")));
}

#[test]
fn each_fault_of_a_mount_table_is_named_with_its_line() {
    let fault = |line: &str| {
        let table = format!("/dev/root / ext4 rw 0 0\n\n{line}\n");
        parse_linux_mount_points(&table).expect_err("a fault")
    };
    assert_eq!(fault("malformed"), MountTableError::MalformedLine(3));
    assert_eq!(
        fault("/dev/x /x ext4 rw 0 0 more"),
        MountTableError::MalformedLine(3)
    );
    assert_eq!(fault("/dev/x /x ext4 rw 0 -1"), MountTableError::MalformedLine(3));
    assert_eq!(
        fault("/dev/x /x ext4 rw 4294967296 0"),
        MountTableError::MalformedLine(3)
    );
    assert_eq!(fault("/dev/x /x\\04 ext4 rw 0 0"), MountTableError::MalformedPath(3));
    assert_eq!(fault("/dev/x /x\\089 ext4 rw 0 0"), MountTableError::MalformedPath(3));
    assert_eq!(fault("/dev/x /x\\400 ext4 rw 0 0"), MountTableError::InvalidEscape(3));
    assert_eq!(fault("/dev/x /x\\000 ext4 rw 0 0"), MountTableError::NulInPath(3));
    assert_eq!(fault("/dev/x x ext4 rw 0 0"), MountTableError::RelativePath(3));
    assert_eq!(
        parse_linux_mount_points("").expect_err("no root"),
        MountTableError::NoRoot
    );
    assert_eq!(
        MountTableError::MalformedLine(3).message(),
        "malformed Linux mount table line 3"
    );
    assert_eq!(
        MountTableError::MalformedPath(10).message(),
        "malformed mount path on line 10"
    );
    assert_eq!(
        MountTableError::InvalidEscape(1).message(),
        "invalid mount path escape on line 1"
    );
    assert_eq!(
        MountTableError::NulInPath(12).message(),
        "NUL in mount path on line 12"
    );
    assert_eq!(
        MountTableError::RelativePath(2).message(),
        "relative mount path on line 2"
    );
    assert_eq!(
        MountTableError::NoRoot.message(),
        "could not parse the Linux mount table root"
    );
}

#[test]
fn mount_points_are_keys_in_the_order_of_the_table() {
    let mounts = parse_linux_mount_points(
        "proc /proc proc rw 0 0\n/dev/root / ext4 rw +0 00\r\n/dev/a /mnt/b/../a ext4 rw 0 2",
    )
    .expect("a valid table");
    assert_eq!(mounts, vec![path("/proc"), path("/"), path("/mnt/a")]);
    // Only an empty line is passed over.
    assert!(parse_linux_mount_points("/dev/root / ext4 rw 0 0\n \n").is_err());
}

#[test]
fn macos_mount_points_keep_spaces_and_brackets() {
    let output = "\
/dev/disk3s1s1 on / (apfs, sealed, local, read-only, journaled)
devfs on /dev (devfs, local, nobrowse)
/dev/disk3s5 on /System/Volumes/Data (apfs, local, journaled, nobrowse)
map auto_home on /System/Volumes/Data/home (autofs, automounted, nobrowse)
/dev/disk5s1 on /Volumes/My Disk (2) (apfs, local, nodev, nosuid)
//tobi@nas/share on /Volumes/share on nas (smbfs, nodev, nosuid)
";
    let points: Vec<PathBuf> = [
        "/",
        "/dev",
        MACOS_DATA_VOLUME,
        "/System/Volumes/Data/home",
        "/Volumes/My Disk (2)",
        "/Volumes/share on nas",
    ]
    .iter()
    .map(|point| PathBuf::of(point))
    .collect();
    assert_eq!(parse_macos_mounts(output), points);
}

#[test]
fn a_mount_list_is_read_on_every_platform() {
    let mac = |success: bool, output: &str| {
        read_mount_points(&MountSource::MountCommand {
            success,
            output: output.into(),
        })
    };
    assert_eq!(
        mac(true, "/dev/disk3s1s1 on / (apfs)\nx on /Volumes/Big Disk (apfs)\n"),
        Ok(vec![path("/"), path("/volumes/big disk")])
    );
    // A name that is not text is shown as well as it can be.
    assert_eq!(
        read_mount_points(&MountSource::MountCommand {
            success: true,
            output: b"x on /Volumes/a\xffb (apfs)\n".to_vec(),
        }),
        Ok(vec![path("/volumes/a\u{fffd}b")])
    );
    assert_eq!(mac(true, "nothing\n"), Err(MountTableError::MacosUnparsed));
    assert_eq!(mac(false, ""), Err(MountTableError::MacosUnreadable));
    assert_eq!(
        MountTableError::MacosUnparsed.message(),
        "could not parse the macOS mount table"
    );
    assert_eq!(
        MountTableError::MacosUnreadable.message(),
        "could not read the macOS mount table"
    );
    assert_eq!(
        read_mount_points(&MountSource::Volumes(Vec::new())),
        Err(MountTableError::WindowsUnreadable)
    );
    assert_eq!(
        MountTableError::WindowsUnreadable.message(),
        "could not read the Windows volume mounts"
    );
    assert_eq!(
        read_mount_points(&MountSource::Proc("/dev/root / ext4 rw 0 0\n".into())),
        Ok(vec![path("/")])
    );
    assert_eq!(read_mount_points(&MountSource::Nothing), Ok(Vec::new()));
}

#[test]
fn nothing_is_mounted_below_a_temp_dir() {
    let mounts = parse_linux_mount_points(
        "/dev/root / ext4 rw 0 0\ntmpfs /tmp tmpfs rw 0 0\nproc /proc proc rw 0 0\n",
    )
    .expect("mount table");
    assert_eq!(mount_below(&path("/tmp/x"), &mounts), None);
}

#[test]
fn the_first_mount_inside_a_path_is_found() {
    let mounts = vec![path("/"), path("/a/b"), path("/a/c")];
    assert_eq!(mount_below(&path("/a"), &mounts), Some(&path("/a/b")));
    assert_eq!(mount_below(&path("/a/b"), &mounts), None);
    assert_eq!(mount_at_or_below(&path("/a/b"), &mounts), Some(&path("/a/b")));
    assert_eq!(mount_at_or_below(&path("/a"), &mounts), Some(&path("/a/b")));
    assert_eq!(mount_at_or_below(&path("/ab"), &mounts), None);
    assert_eq!(mount_at_or_below(&path("/"), &mounts), Some(&path("/")));
}

#[test]
fn the_mount_table_is_read_once_and_then_kept() {
    let mut cache = MountCache::empty();
    assert!(prime_mount_points(&mut cache, 5), "nothing was read yet");
    assert!(!prime_mount_points(&mut cache, 6), "a read is under way");
    cache.landed(Ok(vec![path("/")]), 10);
    let (begin, mounts) = mount_points(&mut cache, 10 + MOUNTS_FRESH - 1);
    assert!(!begin);
    assert_eq!(mounts, Ok(vec![path("/")]));
    let (begin, mounts) = mount_points(&mut cache, 10 + MOUNTS_FRESH);
    assert!(begin, "stale now");
    assert_eq!(mounts, Ok(vec![path("/")]), "and used meanwhile");
    cache.refresh_failed();
    assert!(prime_mount_points(&mut cache, 10 + MOUNTS_FRESH));
}

#[test]
fn a_mount_boundary_is_checked_right_before_a_removal() {
    let mounts = Ok(vec![path("/"), path("/a/b")]);
    assert_eq!(ensure_linux_mount_boundaries(&path("/c"), &mounts, false), Ok(()));
    assert_eq!(
        ensure_linux_mount_boundaries(&path("/a"), &mounts, false),
        Err("refusing to remove mounted filesystem /a/b at or inside /a".into())
    );
    assert_eq!(
        ensure_linux_mount_boundaries(&path("/c"), &mounts, true),
        Err("refusing to remove mounted filesystem /c".into())
    );
    assert_eq!(
        ensure_linux_mount_boundaries(&path("/c"), &Err("no table".into()), false),
        Err("no table".into())
    );
}

#[test]
fn this_macs_mount_table_is_read_without_proc() {
    let mounts = read_mount_points(&MountSource::MountCommand {
        success: true,
        output: "/dev/disk3s1s1 on / (apfs, sealed, local)\n\
                 /dev/disk3s5 on /System/Volumes/Data (apfs, local)\n"
            .into(),
    })
    .expect("mount table");
    assert!(mounts.contains(&path("/")), "{mounts:?}");
    assert!(
        mount_below(&path("/system/volumes"), &mounts).is_some(),
        "the Data volume is mounted there"
    );
}
