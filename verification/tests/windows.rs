//! Listings and paths on Windows.

use disktree::guards::normalize;
use disktree::path::{Component, PathBuf, Prefix};
use disktree::platform::Platform;
use disktree::windows::{
    bytes_from, code, file_id, grown, guard_key, identity, is_mount_point, narrow, record, same,
    unix_seconds, unsupported, until_nul, volume_paths, wide, Entry, Fill, Kind, Next, ReadDir,
    StdMeta, ALLOCATED_AT, ATTRIBUTES_AT, BUFFER_BYTES, EPOCH_TICKS, ERROR_INVALID_FUNCTION,
    ERROR_INVALID_LEVEL, ERROR_INVALID_PARAMETER, ERROR_NOT_SUPPORTED, ERROR_NO_MORE_FILES,
    EVICTED, FILE_ATTRIBUTE_DIRECTORY, FILE_ATTRIBUTE_HIDDEN, FILE_ATTRIBUTE_REPARSE_POINT, ID_AT,
    LENGTH_AT, NAME_AT, NAME_LENGTH_AT, NAME_SURROGATE, NEXT_AT, TAG_AT, TICKS_PER_SECOND,
    WRITTEN_AT,
};
use windows_sys::Win32::Foundation;
use windows_sys::Win32::Storage::FileSystem;

/// A path as Windows reads it: a drive, a share, or either spelled verbatim.
fn path(text: &str) -> PathBuf {
    let mut parts = Vec::new();
    let bytes = |name: &str| name.as_bytes().to_vec();
    let rest = if let Some(share) = text.strip_prefix(r"\\?\UNC\") {
        let mut names = share.splitn(3, '\\');
        let server = bytes(names.next().unwrap_or(""));
        let name = bytes(names.next().unwrap_or(""));
        parts.push(Component::Prefix(Prefix::VerbatimUnc(server, name)));
        names.next().unwrap_or("")
    } else if let Some(disk) = text.strip_prefix(r"\\?\") {
        parts.push(Component::Prefix(Prefix::VerbatimDisk(
            disk.as_bytes()[0].to_ascii_uppercase(),
        )));
        disk[2..].trim_start_matches('\\')
    } else if let Some(share) = text.strip_prefix(r"\\") {
        let mut names = share.splitn(3, '\\');
        let server = bytes(names.next().unwrap_or(""));
        let name = bytes(names.next().unwrap_or(""));
        parts.push(Component::Prefix(Prefix::Unc(server, name)));
        names.next().unwrap_or("")
    } else {
        parts.push(Component::Prefix(Prefix::Disk(
            text.as_bytes()[0].to_ascii_uppercase(),
        )));
        text[2..].trim_start_matches('\\')
    };
    parts.push(Component::RootDir);
    for name in rest.split('\\').filter(|name| !name.is_empty()) {
        parts.push(Component::Normal(bytes(name)));
    }
    PathBuf::build(Platform::Windows, parts)
}

fn units(text: &str) -> Vec<u16> {
    text.encode_utf16().collect()
}

/// A record of a listing.
struct Record {
    name: Vec<u16>,
    length: i64,
    allocated: i64,
    written: i64,
    attributes: u32,
    tag: u32,
    id: u128,
}

fn plain(name: &str) -> Record {
    Record {
        name: units(name),
        length: 100_000,
        allocated: 102_400,
        written: EPOCH_TICKS + 90 * TICKS_PER_SECOND,
        attributes: 0x20,
        tag: 0,
        id: 7,
    }
}

fn put(buffer: &mut [u8], at: usize, bytes: &[u8]) {
    buffer[at..at + bytes.len()].copy_from_slice(bytes);
}

/// The records, as the file system lays them out.
fn laid_out(records: &[Record]) -> Vec<u8> {
    let mut buffer = Vec::new();
    for (index, record) in records.iter().enumerate() {
        let length = (NAME_AT + 2 * record.name.len()).next_multiple_of(8);
        let mut bytes = vec![0_u8; length];
        let next = if index + 1 == records.len() { 0 } else { length as u32 };
        put(&mut bytes, NEXT_AT, &next.to_le_bytes());
        put(&mut bytes, WRITTEN_AT, &record.written.to_le_bytes());
        put(&mut bytes, LENGTH_AT, &record.length.to_le_bytes());
        put(&mut bytes, ALLOCATED_AT, &record.allocated.to_le_bytes());
        put(&mut bytes, ATTRIBUTES_AT, &record.attributes.to_le_bytes());
        let name_bytes = 2 * record.name.len() as u32;
        put(&mut bytes, NAME_LENGTH_AT, &name_bytes.to_le_bytes());
        put(&mut bytes, TAG_AT, &record.tag.to_le_bytes());
        put(&mut bytes, ID_AT, &record.id.to_le_bytes());
        for (place, unit) in record.name.iter().enumerate() {
            put(&mut bytes, NAME_AT + 2 * place, &unit.to_le_bytes());
        }
        buffer.extend(bytes);
    }
    buffer
}

/// Every entry of a listing that comes in these buffers.
fn listed(volume: Option<u64>, buffers: Vec<Vec<u8>>) -> Vec<Entry> {
    let mut listing = ReadDir::start(path(r"C:\dir"), volume);
    let mut buffers = buffers.into_iter();
    let mut entries = Vec::new();
    loop {
        match listing.next() {
            Next::End => return entries,
            Next::Fill => {
                let fill = match buffers.next() {
                    Some(buffer) => Fill::Filled(buffer),
                    None => Fill::Failed(Some(ERROR_NO_MORE_FILES)),
                };
                listing.fill(fill).expect("a buffer, or the end");
            }
            Next::Entry(entry) => entries.push(entry),
            Next::Malformed(error) => panic!("{}", error.message()),
        }
    }
}

/// Containment as the removal guards judge it.
fn within(path: &PathBuf, base: &PathBuf) -> bool {
    guard_key(path).starts_with(&guard_key(base))
}

#[test]
fn paths_compare_without_case_or_verbatim_prefixes() {
    let windows = path(r"C:\Windows");
    assert!(within(&path(r"c:\WINDOWS\System32"), &windows));
    assert!(within(&path(r"\\?\C:\Windows\Temp"), &windows));
    assert!(!within(&path(r"C:\Windows.old"), &windows), "components");
    assert!(!within(&path(r"D:\Windows"), &windows));
    assert!(same(
        &path(r"\\server\Share\Dir"),
        &path(r"\\?\UNC\SERVER\share\dir")
    ));
    assert!(within(&path(r"C:\Users\Олег\x"), &path(r"c:\users\ОЛЕГ")));
}

#[test]
fn a_lone_surrogate_is_shown_as_one_character() {
    // A name as the file system may keep it: half of a pair.
    let name = narrow(&[0x61, 0xd800, 0x62]);
    assert_eq!(name, b"a\xed\xa0\x80b");
    let odd = path(r"C:\dir").join_name(Platform::Windows, &name);
    assert_eq!(odd.display(Platform::Windows), "C:\\dir\\a\u{fffd}b");
    assert_eq!(guard_key(&odd).display(Platform::Windows), "c:\\dir\\a\u{fffd}b");
    // Two of them, and text beside them that is not ASCII.
    let name = narrow(&[0xdfff, 0xd83d, 0xe9]);
    let odd = path(r"C:\").join_name(Platform::Windows, &name);
    assert_eq!(odd.display(Platform::Windows), "C:\\\u{fffd}\u{fffd}\u{e9}");
    // The same bytes on Unix are three that are no text.
    let unix = PathBuf::unix(b"/a\xed\xa0\x80b".to_vec());
    assert_eq!(unix.display(Platform::Linux), "/a\u{fffd}\u{fffd}\u{fffd}b");
}

#[test]
fn a_name_that_is_pushed_is_read_as_a_path() {
    let normal = |path: &PathBuf| normalize(Platform::Windows, path);
    let spelled = |path: &PathBuf| normal(path).display(Platform::Windows);
    // In a verbatim path a slash is part of a name, until it is pushed.
    let odd = path(r"\\?\C:\a/b\c");
    assert_eq!(odd.parts.len(), 4);
    assert_eq!(spelled(&odd), r"\\?\C:\a\b\c");
    assert_eq!(normal(&odd).parts.len(), 5);
    assert_eq!(spelled(&path(r"\\?\C:\x\a/../b")), r"\\?\C:\x\b");
    assert_eq!(spelled(&path(r"\\?\C:\x\../b/.")), r"\\?\C:\b");
    assert_eq!(spelled(&path(r"\\?\C:\x\/b")), r"\\?\C:\b");
    assert_eq!(spelled(&path(r"\\?\UNC\s\h\x\/b")), r"\\?\UNC\s\h\b");
    // One that starts with a drive, or a share, is a path of its own.
    let stream = normal(&path(r"C:\x\a:b"));
    assert_eq!(stream.display(Platform::Windows), "a:b");
    assert!(matches!(stream.parts[0], Component::Prefix(Prefix::Disk(b'A'))));
    assert!(matches!(&stream.parts[1], Component::Normal(name) if name == b"b"));
    assert_eq!(stream.parts.len(), 2);
    assert_eq!(spelled(&path(r"\\?\C:\x\a:b\c")), r"a:b\c");
    assert_eq!(spelled(&path(r"\\?\C:\x\a:/b")), "a:/b");
    let share = normal(&path(r"\\?\C:\x\//s/h/b"));
    assert_eq!(share.display(Platform::Windows), "//s/h/b");
    assert!(matches!(&share.parts[0], Component::Prefix(Prefix::Unc(s, h)) if s == b"s" && h == b"h"));
    assert!(matches!(share.parts[1], Component::RootDir));
    assert_eq!(share.parts.len(), 3);
    let device = normal(&path(r"\\?\C:\x\//./com1"));
    assert!(matches!(&device.parts[0], Component::Prefix(Prefix::DeviceNs(name)) if name == b"com1"));
    // Two letters before the colon are no drive, and neither is a digit.
    assert_eq!(spelled(&path(r"C:\x\ab:c")), r"C:\x\ab:c");
    assert_eq!(spelled(&path(r"C:\x\1:c")), r"C:\x\1:c");
    // A path whose names read as they are is normalized once and for all.
    let once = normal(&path(r"\\?\C:\a/b\..\c"));
    assert_eq!(spelled(&once), once.display(Platform::Windows));
}

#[test]
fn a_path_is_joined_as_windows_joins() {
    let joined = |base: &str, rest: &PathBuf| {
        path(base).join(Platform::Windows, &rest.parts).display(Platform::Windows)
    };
    assert_eq!(joined(r"C:\a", &PathBuf::of("b/c")), r"C:\a\b\c");
    assert_eq!(joined(r"C:\a", &PathBuf::of("/b")), r"C:\b", "behind the prefix");
    assert_eq!(joined(r"\\s\h\a", &PathBuf::of("/b")), r"\\s\h\b");
    assert_eq!(joined(r"C:\a", &path(r"D:\b")), r"D:\b");
    assert_eq!(joined(r"\\?\C:\a", &PathBuf::of("../b")), r"\\?\C:\b");
    assert_eq!(joined(r"C:\a", &PathBuf::of("../b")), r"C:\a\..\b");
    let dot = path(r"C:\a").join(Platform::Windows, &PathBuf::of("./b").parts);
    assert_eq!(dot, path(r"C:\a\b"));
}

#[test]
fn folded_spellings_are_compared_as_text() {
    // A server called `?` is spelled as a verbatim name is.
    let share = PathBuf::build(
        Platform::Windows,
        vec![Component::Prefix(Prefix::Unc(b"?".to_vec(), b"X".to_vec()))],
    );
    let verbatim = PathBuf::build(
        Platform::Windows,
        vec![Component::Prefix(Prefix::Verbatim(b"x".to_vec()))],
    );
    assert!(same(&share, &verbatim));
    assert_eq!(guard_key(&verbatim), verbatim);
    assert!(!same(&path(r"C:\a"), &path(r"C:\a\b")));
    assert!(!same(&path(r"C:\a"), &path(r"D:\a")));
}

#[test]
fn times_convert_to_unix_seconds() {
    assert_eq!(unix_seconds(0), 0, "before 1970");
    assert_eq!(unix_seconds(EPOCH_TICKS), 0);
    assert_eq!(unix_seconds(EPOCH_TICKS + 90 * TICKS_PER_SECOND), 90);
    assert_eq!(unix_seconds(i64::MIN), 0);
    assert_eq!(unix_seconds(EPOCH_TICKS + TICKS_PER_SECOND - 1), 0);
}

#[test]
fn only_whole_ids_name_a_file() {
    assert_eq!(file_id(0), None, "no id at all");
    assert_eq!(file_id(0x0005_0000_0000_1234), Some(0x0005_0000_0000_1234));
    assert_eq!(file_id((1 << 64) | 7), None, "a ReFS id needs both halves");
    assert_eq!(identity(3, 0), None);
    assert_eq!(identity(3, 9), Some((3, 9)));
    assert_eq!(bytes_from(-1), 0);
    assert_eq!(bytes_from(5), 5);
}

#[test]
fn a_listing_has_names_kinds_lengths_and_no_dot_entries() {
    let mut sub = plain("sub");
    sub.attributes = FILE_ATTRIBUTE_DIRECTORY;
    let entries = listed(
        Some(3),
        vec![laid_out(&[plain("."), plain(".."), plain("data.bin"), sub])],
    );
    let names: Vec<&Vec<u16>> = entries.iter().map(Entry::file_name).collect();
    assert_eq!(names, [&units("data.bin"), &units("sub")]);
    assert_eq!(entries[0].kind(), Kind::File);
    assert_eq!(entries[0].apparent(), 100_000);
    assert_eq!(entries[0].path(), path(r"C:\dir\data.bin"));
    assert_eq!(entries[0].path().display(Platform::Windows), r"C:\dir\data.bin");
    assert_eq!(entries[1].kind(), Kind::Directory);
    assert_eq!(entries[0].modified(), 90);
    assert!(!entries[0].hidden() && !entries[0].evicted());
}

#[test]
fn the_allocation_is_whole_clusters_of_the_data() {
    let entry = &listed(Some(3), vec![laid_out(&[plain("data.bin")])])[0];
    assert_eq!(entry.allocated(), 102_400);
    assert_eq!(entry.allocated() % 512, 0);
}

#[test]
fn two_names_of_one_file_share_an_identity() {
    let mut other = plain("other.bin");
    other.id = 8;
    let buffer = || laid_out(&[plain("link.bin"), plain("original.bin")]);
    let entries = listed(Some(3), vec![buffer(), laid_out(&[other])]);
    assert_eq!(entries[1].identity(), Some((3, 7)));
    assert_eq!(entries[0].identity(), entries[1].identity());
    assert_ne!(entries[2].identity(), entries[1].identity());
    assert_eq!(identity(3, 7), entries[1].identity(), "one id scheme");
    let unknown = listed(None, vec![buffer()]);
    assert_eq!(unknown[0].identity(), None, "without the volume");
}

#[test]
fn a_junction_is_a_link_and_listing_it_lists_its_target() {
    let mut junction = plain("junction");
    junction.attributes = FILE_ATTRIBUTE_DIRECTORY | FILE_ATTRIBUTE_REPARSE_POINT;
    junction.tag = 0xA000_0003;
    let mut target = plain("target");
    target.attributes = FILE_ATTRIBUTE_DIRECTORY;
    let mut cloud = plain("cloud");
    cloud.attributes = FILE_ATTRIBUTE_DIRECTORY | FILE_ATTRIBUTE_REPARSE_POINT | EVICTED;
    cloud.tag = 0x9000_601A;
    let entries = listed(Some(3), vec![laid_out(&[junction, target, cloud])]);
    assert_eq!(entries[0].kind(), Kind::Link);
    assert_eq!(entries[1].kind(), Kind::Directory);
    assert_eq!(entries[2].kind(), Kind::Directory, "no name surrogate");
    assert!(entries[2].evicted() && !entries[1].evicted());
}

#[test]
fn a_large_directory_spans_several_buffers() {
    let mut buffers = Vec::new();
    for chunk in 0..20_usize {
        let records: Vec<Record> = (0..100_usize)
            .map(|index| plain(&format!("{:04}-{}", chunk * 100 + index, "n".repeat(120))))
            .collect();
        let buffer = laid_out(&records);
        assert!(buffer.len() <= BUFFER_BYTES);
        buffers.push(buffer);
    }
    let entries = listed(Some(3), buffers);
    assert_eq!(entries.len(), 2000);
    assert_eq!(&entries[1999].file_name()[..4], units("1999").as_slice());
}

#[test]
fn a_record_that_makes_no_sense_ends_the_listing() {
    let good = laid_out(&[plain("a")]);
    let mut odd = good.clone();
    odd[NAME_LENGTH_AT] = 3;
    let mut long = good.clone();
    put(&mut long, NAME_LENGTH_AT, &u32::MAX.to_le_bytes());
    let mut short = good.clone();
    short.truncate(NAME_AT - 1);
    let mut back = good.clone();
    put(&mut back, NEXT_AT, &4_u32.to_le_bytes());
    let mut past = good.clone();
    put(&mut past, NEXT_AT, &4096_u32.to_le_bytes());
    for broken in [odd, long, short] {
        let mut listing = ReadDir::start(path(r"C:\dir"), None);
        assert!(matches!(listing.next(), Next::Fill));
        listing.fill(Fill::Filled(broken)).expect("filled");
        assert!(matches!(listing.next(), Next::Malformed(_)));
        assert!(matches!(listing.next(), Next::End));
    }
    let mut listing = ReadDir::start(path(r"C:\dir"), None);
    listing.fill(Fill::Filled(past)).expect("filled");
    assert!(matches!(listing.next(), Next::Entry(_)));
    assert!(matches!(listing.next(), Next::Malformed(_)));
    assert!(record(&good, &path(r"C:\dir"), None, 0).is_ok());
    assert!(record(&good, &path(r"C:\dir"), None, u64::MAX).is_err());
    assert!(record(&back, &path(r"C:\dir"), None, 0).is_err());
}

#[test]
fn a_failed_listing_is_reported_once() {
    let mut listing = ReadDir::start(path(r"C:\dir"), None);
    assert!(matches!(listing.next(), Next::Fill));
    assert_eq!(listing.fill(Fill::Failed(Some(5))), Err(Some(5)));
    assert!(matches!(listing.next(), Next::End));
}

#[test]
fn the_standard_listing_has_lengths_only() {
    let entry = Entry::from_std(
        &path(r"C:\dir"),
        units("x"),
        StdMeta {
            is_symlink: false,
            is_dir: false,
            len: 12,
            last_write_time: (EPOCH_TICKS + TICKS_PER_SECOND) as u64,
            attributes: FILE_ATTRIBUTE_HIDDEN,
        },
    );
    assert_eq!((entry.apparent(), entry.allocated()), (12, 12));
    assert_eq!(entry.modified(), 1);
    assert_eq!(entry.identity(), None);
    assert!(entry.hidden());
    let link = Entry::from_std(
        &path(r"C:\dir"),
        units("x"),
        StdMeta {
            is_symlink: true,
            is_dir: true,
            len: 0,
            last_write_time: u64::MAX,
            attributes: 0,
        },
    );
    assert_eq!((link.kind(), link.modified()), (Kind::Link, 0));
}

#[test]
fn a_path_is_on_its_drive_and_a_folder_is_no_mount_point() {
    let drive = path(r"C:\");
    let folder = path(r"C:\Users\tobi\Temp");
    assert!(!is_mount_point(&folder, Some(&drive)));
    assert!(
        !is_mount_point(&drive, Some(&drive)),
        "a drive is a root, not a folder"
    );
    assert!(is_mount_point(&folder, Some(&path(r"c:\users\TOBI\temp\"))));
    assert!(!is_mount_point(&folder, None));
}

#[test]
fn names_are_read_up_to_their_nul() {
    assert_eq!(until_nul(&[65, 66, 0, 67]), Some(vec![65, 66]));
    assert_eq!(until_nul(&[65, 66]), None);
    assert_eq!(until_nul(&[0]), Some(Vec::new()));
    let names = [units("C:\\"), vec![0], units("D:\\m\\"), vec![0, 0]].concat();
    assert_eq!(volume_paths(&names), vec![units("C:\\"), units("D:\\m\\")]);
    assert_eq!(volume_paths(&[0]), Vec::<Vec<u16>>::new());
}

#[test]
fn names_become_bytes_as_the_standard_library_keeps_them() {
    assert_eq!(narrow(&units("aé€😀")), "aé€😀".as_bytes());
    assert_eq!(narrow(&[0xd83d]), [0xed, 0xa0, 0xbd], "a lone surrogate");
}

#[test]
fn wide_strings_end_with_a_nul_and_a_directory_with_a_separator() {
    assert_eq!(wide(&units("C:\\x"), false), Ok([units("C:\\x"), vec![0]].concat()));
    assert_eq!(wide(&units("C:\\x"), true), Ok([units("C:\\x\\"), vec![0]].concat()));
    assert_eq!(wide(&units("C:\\"), true), Ok([units("C:\\"), vec![0]].concat()));
    assert!(wide(&[65, 0, 66], false).is_err());
}

#[test]
fn a_buffer_grows_only_where_more_is_needed() {
    assert_eq!(grown(10, 20), Some(20));
    assert_eq!(grown(10, 10), None);
    assert_eq!(grown(10, 5), None);
}

#[test]
fn the_classes_a_file_system_lacks_are_told_by_their_errors() {
    for number in [
        ERROR_INVALID_FUNCTION,
        ERROR_NOT_SUPPORTED,
        ERROR_INVALID_PARAMETER,
        ERROR_INVALID_LEVEL,
    ] {
        assert!(unsupported(Some(number)), "{number}");
    }
    assert!(!unsupported(Some(ERROR_NO_MORE_FILES)));
    assert!(!unsupported(None));
    assert_eq!(code(Some(5)), Some(5));
    assert_eq!(code(Some(-1)), None);
    assert_eq!(code(None), None);
}

#[test]
fn the_numbers_are_those_of_the_system() {
    assert_eq!(FILE_ATTRIBUTE_HIDDEN, FileSystem::FILE_ATTRIBUTE_HIDDEN);
    assert_eq!(FILE_ATTRIBUTE_DIRECTORY, FileSystem::FILE_ATTRIBUTE_DIRECTORY);
    assert_eq!(
        FILE_ATTRIBUTE_REPARSE_POINT,
        FileSystem::FILE_ATTRIBUTE_REPARSE_POINT
    );
    assert_eq!(
        EVICTED,
        FileSystem::FILE_ATTRIBUTE_RECALL_ON_OPEN
            | FileSystem::FILE_ATTRIBUTE_RECALL_ON_DATA_ACCESS
    );
    assert_eq!(ERROR_INVALID_FUNCTION, Foundation::ERROR_INVALID_FUNCTION);
    assert_eq!(ERROR_NO_MORE_FILES, Foundation::ERROR_NO_MORE_FILES);
    assert_eq!(ERROR_NOT_SUPPORTED, Foundation::ERROR_NOT_SUPPORTED);
    assert_eq!(ERROR_INVALID_PARAMETER, Foundation::ERROR_INVALID_PARAMETER);
    assert_eq!(ERROR_INVALID_LEVEL, Foundation::ERROR_INVALID_LEVEL);
    assert_eq!(NAME_SURROGATE, 0x2000_0000);
}
