//! What holds of everything that is moved to the trash.

use vstd::prelude::*;

use crate::laws::spelling;
use crate::mounts;
use crate::mounts::MountsView;
use crate::path;
use crate::path::{Part, PathBuf, PathView};
use crate::platform::Platform;
use crate::text;
use crate::trash;
use crate::trash::{TrashBackend, TrashMove};
use crate::xdg;
use crate::xdg::{
    Settled, TrashEntry, TrashEntryView, TrashReply, TrashReplyView, TrashRequest, TrashRequestView,
    TrashStageView, Trashing, TrashingView,
};

verus! {

// ---------------------------------------------------------------------
// Backends.
// ---------------------------------------------------------------------

/// Windows and macOS have their own trash, whatever tools there are;
/// elsewhere the first of `trash-put`, `gio` and the trash of the home
/// directory that there is, and nothing only where there is none.
pub proof fn lemma_detected(
    platform: Platform,
    has_trash_put: bool,
    has_gio: bool,
    has_home_trash: bool,
    backend: TrashBackend,
)
    requires
        call_ensures(
            trash::detect_trash_backend,
            (platform, has_trash_put, has_gio, has_home_trash),
            backend,
        ),
    ensures
        platform is Windows <==> backend is RecycleBin,
        platform is MacOs <==> backend is MacOs,
        backend is Unavailable <==> platform is Linux && !has_trash_put && !has_gio
            && !has_home_trash,
        backend is TrashPut <==> platform is Linux && has_trash_put,
        backend is Gio <==> platform is Linux && has_gio && !has_trash_put,
        backend is XdgHome <==> platform is Linux && has_home_trash && !has_gio && !has_trash_put,
{
}

/// A backend is available exactly where it is one.
pub proof fn lemma_available(backend: TrashBackend, available: bool)
    requires
        call_ensures(TrashBackend::is_available, (backend,), available),
    ensures
        !available <==> backend is Unavailable,
{
}

/// A path is kept out of the trash exactly where, on Linux, the mounts are
/// not known or something is mounted on it or in it; where the backend is
/// not one of this platform; where the home trash has no place; where the
/// macOS Trash could not take its name; and where there is no backend.
pub proof fn lemma_trash_refused_exactly(
    platform: Platform,
    path: PathView,
    backend: TrashBackend,
    mounts: MountsView,
    mount_point: bool,
    place: Option<PathView>,
)
    ensures
        ({
            let says = trash::trash_refusal(
                platform,
                path,
                backend,
                mounts,
                mount_point,
                place,
            );
            let boundary = mounts::boundary_refusal(path, mounts, mount_point);
            let clear = platform is Linux ==> boundary is None;
            &&& !clear ==> says == boundary
            &&& clear && (backend is TrashPut || backend is Gio) ==> says is None
            &&& clear && backend is XdgHome ==> {
                &&& place is None ==> says == Some("neither XDG_DATA_HOME nor HOME is set"@)
                &&& place is Some && platform is Windows ==> says == Some(
                    "the XDG trash is only implemented on Unix"@,
                )
                &&& place is Some && !(platform is Windows) ==> says is None
            }
            &&& clear && backend is MacOs ==> {
                &&& !(platform is MacOs) ==> says == Some("the macOS Trash only exists on macOS"@)
                &&& platform is MacOs && vstd::utf8::valid_utf8(path.text) ==> says is None
                &&& platform is MacOs && !vstd::utf8::valid_utf8(path.text) ==> says == Some(
                    "the name is not UTF-8, which the Trash cannot take; use permanent deletion"@,
                )
            }
            &&& clear && backend is RecycleBin ==> {
                &&& !(platform is Windows) ==> says == Some("the Recycle Bin is only on Windows"@)
                &&& platform is Windows ==> says is None
            }
            &&& clear && backend is Unavailable ==> says == Some(
                "no trash tool is installed; use permanent deletion instead"@,
            )
        }),
{
}

/// A tool is called by its name, with the word that tells it to trash where
/// it needs one, then the separator, then the path as it is spelled and
/// nothing after it; the home trash is the one that was found; and the
/// others are the system's own.
pub proof fn lemma_moved_by(
    way: TrashMove,
    path: PathView,
    backend: TrashBackend,
    place: Option<PathView>,
)
    requires
        trash::moves_by(way, path, backend, place),
    ensures
        match backend {
            TrashBackend::TrashPut => way matches TrashMove::Tool(call) && call.program@
                == "trash-put"@ && call.arguments.deep_view() == seq![
                vstd::utf8::encode_utf8("--"@),
                path.text,
            ],
            TrashBackend::Gio => way matches TrashMove::Tool(call) && call.program@ == "gio"@
                && call.arguments.deep_view() == seq![
                vstd::utf8::encode_utf8("trash"@),
                vstd::utf8::encode_utf8("--"@),
                path.text,
            ],
            TrashBackend::XdgHome => way matches TrashMove::Xdg(dir) && place == Some(dir@),
            TrashBackend::MacOs => way is MacOs,
            TrashBackend::RecycleBin => way is Recycle,
            TrashBackend::Unavailable => false,
        },
{
    if backend is TrashPut {
        assert(trash::tool_arguments(seq![], path) =~= seq![
            vstd::utf8::encode_utf8("--"@),
            path.text,
        ]);
    }
    if backend is Gio {
        assert(trash::tool_arguments(seq!["trash"@], path) =~= seq![
            vstd::utf8::encode_utf8("trash"@),
            vstd::utf8::encode_utf8("--"@),
            path.text,
        ]);
    }
}

/// On Unix the home trash is `Trash` in the data directory where that is
/// set, whatever the home directory is, and else `.local/share/Trash` in the
/// home directory; without either there is none.
pub proof fn lemma_trash_place(
    platform: Platform,
    data_home: Option<PathView>,
    home: Option<PathView>,
)
    requires
        !(platform is Windows),
    ensures
        ({
            let place = trash::trash_dir(platform, data_home, home);
            let name = |s: Seq<char>| Part::Name(vstd::utf8::encode_utf8(s));
            &&& data_home matches Some(data) ==> {
                &&& place matches Some(place)
                &&& place.parts == data.parts.push(name("Trash"@))
            }
            &&& data_home is None ==> (home matches Some(home) ==> {
                &&& place matches Some(place)
                &&& place.parts == home.parts + seq![
                    name(".local"@),
                    name("share"@),
                    name("Trash"@),
                ]
            })
            &&& data_home is None && home is None ==> place is None
        }),
{
    let trash = vstd::utf8::encode_utf8("Trash"@);
    if let Some(data) = data_home {
        spelling::lemma_entry_of(platform, data, trash);
    } else if let Some(home) = home {
        let share = seq![
            Part::Name(vstd::utf8::encode_utf8(".local"@)),
            Part::Name(vstd::utf8::encode_utf8("share"@)),
        ];
        let dir = path::joined(platform, home, share);
        assert(dir.parts =~= home.parts + share);
        spelling::lemma_entry_of(platform, dir, trash);
        let place = trash::trash_dir(platform, data_home, Some(home))->0;
        assert(place.parts =~= home.parts + seq![
            Part::Name(vstd::utf8::encode_utf8(".local"@)),
            Part::Name(vstd::utf8::encode_utf8("share"@)),
            Part::Name(trash),
        ]);
    }
}

/// A program is looked for in every directory `PATH` names, in that order,
/// by its own name.
pub proof fn lemma_program_looked_for(value: Seq<u8>, program: Seq<char>)
    ensures
        ({
            let dirs = text::pieces(value, 58u8);
            let places = trash::program_places(value, program);
            &&& places.len() == dirs.len()
            &&& forall|i: int|
                0 <= i < dirs.len() ==> (#[trigger] places[i]).parts == path::unix_parts(
                    dirs[i],
                ).push(Part::Name(vstd::utf8::encode_utf8(program)))
        }),
{
    let dirs = text::pieces(value, 58u8);
    let places = trash::program_places(value, program);
    assert forall|i: int| 0 <= i < dirs.len() implies (#[trigger] places[i]).parts
        == path::unix_parts(dirs[i]).push(Part::Name(vstd::utf8::encode_utf8(program))) by {
        spelling::lemma_entry_of(
            Platform::Linux,
            path::unix_path(dirs[i]),
            vstd::utf8::encode_utf8(program),
        );
    }
}

/// What a tool's run comes to: done where it succeeded, and else that it
/// failed, with what it wrote, white space taken off at both ends.
pub proof fn lemma_tool_outcome(program: &str, success: bool, stderr: &[u8], outcome: Result<(), String>)
    requires
        call_ensures(trash::tool_outcome, (program, success, stderr), outcome),
    ensures
        outcome is Ok <==> success,
        outcome matches Err(reason) ==> reason@ == program@ + " failed: "@ + text::trimmed(
            text::shown(stderr@),
        ),
{
}

// ---------------------------------------------------------------------
// The record.
// ---------------------------------------------------------------------

/// A byte is written as it is where it is a letter, a digit, or one of
/// `/-._~`, and else as a percent sign and two capital hexadecimal digits
/// that number it; and what is written is written byte by byte.
pub proof fn lemma_percent_by_byte(byte: u8, rest: Seq<u8>)
    ensures
        ({
            let c = byte as char;
            let plain = 'a' <= c <= 'z' || 'A' <= c <= 'Z' || '0' <= c <= '9' || c == '/' || c
                == '-' || c == '.' || c == '_' || c == '~';
            let all = xdg::percent_encoded(seq![byte] + rest);
            let tail = xdg::percent_encoded(rest);
            &&& xdg::percent_encoded(Seq::<u8>::empty()) == Seq::<char>::empty()
            &&& plain ==> all == seq![c] + tail
            &&& !plain ==> {
                &&& all.len() == 3 + tail.len()
                &&& all.skip(3) == tail
                &&& all[0] == '%'
                &&& is_capital_digit(all[1], byte / 16)
                &&& is_capital_digit(all[2], byte % 16)
            }
        }),
{
    let all = seq![byte] + rest;
    assert(all.skip(1) =~= rest);
    let first = xdg::percent(byte);
    let tail = xdg::percent_encoded(rest);
    assert(xdg::percent_encoded(all) == first + tail);
    assert((first + tail).skip(first.len() as int) =~= tail);
    if !xdg::is_unreserved(byte) {
        assert((first + tail)[0] == first[0]);
        assert((first + tail)[1] == first[1]);
        assert((first + tail)[2] == first[2]);
    }
}

/// `c` is the capital hexadecimal digit for `n`.
pub open spec fn is_capital_digit(c: char, n: u8) -> bool {
    ||| '0' <= c <= '9' && c as u32 == 48 + n
    ||| 'A' <= c <= 'F' && c as u32 == 55 + n
}

/// What is recorded of a trashed path: its path as it is shown, encoded, and
/// the date.
pub proof fn lemma_record_says(path: PathView, date: Seq<char>)
    ensures
        xdg::info_text(path, date) == "[Trash Info]\nPath="@ + xdg::percent_encoded(
            vstd::utf8::encode_utf8(text::shown(path.text)),
        ) + "\nDeletionDate="@ + date + "\n"@,
{
}

// ---------------------------------------------------------------------
// The move.
// ---------------------------------------------------------------------

/// A path goes into a trash directory exactly where this is Unix, both are
/// on one device, and the path ends in a name.
pub proof fn lemma_entry_refused_exactly(
    platform: Platform,
    path: PathView,
    source_device: u64,
    trash_device: u64,
)
    ensures
        ({
            let says = xdg::entry_refusal(platform, path, source_device, trash_device);
            let named = path.parts.len() > 0 && path.parts.last() is Name;
            &&& says is None <==> !(platform is Windows) && source_device == trash_device && named
            &&& platform is Windows ==> says == Some("the XDG trash is only implemented on Unix"@)
            &&& !(platform is Windows) && source_device != trash_device ==> says == Some(
                "on a different filesystem than the trash; use permanent deletion"@,
            )
            &&& !(platform is Windows) && source_device == trash_device && !named ==> says == Some(
                "refusing to trash a path without a name"@,
            )
        }),
{
}

/// The name a file is tried by in the trash: its own first, then with a dot
/// and how many were taken before.
pub proof fn lemma_names_tried(name: Seq<char>, tries: nat)
    ensures
        xdg::candidate(name, 0) == name,
        tries > 0 ==> xdg::candidate(name, tries) == name + "."@ + text::decimal(tries),
{
}

/// A move into the trash asks for one name after the other until one is
/// free, and then moves the path there, from where it is; what is moved gets
/// a record under the same name and with that is done; what gets none is put
/// back from where it was moved to, and the move has failed, for the reason
/// the record did.
pub proof fn lemma_trash_goes_on(trashing: TrashingView)
    ensures
        ({
            let path = trashing.path;
            let entry = trashing.entry;
            let name = xdg::candidate(entry.name, entry.taken);
            let file = path::joined(
                Platform::Linux,
                entry.files,
                seq![Part::Name(vstd::utf8::encode_utf8(name))],
            );
            let record = path::joined(
                Platform::Linux,
                entry.info,
                seq![Part::Name(vstd::utf8::encode_utf8(name + ".trashinfo"@))],
            );
            let after = |reply: TrashReplyView| xdg::trash_step(trashing, reply);
            &&& trashing.stage is Look ==> {
                &&& xdg::trash_request(trashing) == TrashRequestView::Look(file)
                &&& after(TrashReplyView::Taken(false)).stage is Move
                &&& after(TrashReplyView::Taken(false)).entry == entry
                &&& entry.taken < u64::MAX ==> after(TrashReplyView::Taken(true)) == (
                TrashingView {
                    path,
                    entry: TrashEntryView {
                        files: entry.files,
                        info: entry.info,
                        name: entry.name,
                        taken: entry.taken + 1,
                    },
                    stage: TrashStageView::Look,
                })
            }
            &&& trashing.stage is Move ==> {
                &&& xdg::trash_request(trashing) == (TrashRequestView::Move {
                    from: path,
                    to: file,
                })
                &&& after(TrashReplyView::Moved(Ok(()))) == (TrashingView {
                    path,
                    entry,
                    stage: TrashStageView::Record,
                })
                &&& forall|reason: Seq<char>|
                    #[trigger] after(TrashReplyView::Moved(Err(reason))).stage
                        == TrashStageView::Failed(reason)
            }
            &&& trashing.stage is Record ==> {
                &&& xdg::trash_request(trashing) == TrashRequestView::Record(record)
                &&& after(TrashReplyView::Recorded(Ok(()))).stage is Done
                &&& forall|reason: Seq<char>|
                    #[trigger] after(TrashReplyView::Recorded(Err(reason))) == (TrashingView {
                        path,
                        entry,
                        stage: TrashStageView::PutBack(reason),
                    })
            }
            &&& trashing.stage matches TrashStageView::PutBack(reason) ==> {
                &&& xdg::trash_request(trashing) == (TrashRequestView::PutBack {
                    from: file,
                    to: path,
                })
                &&& after(TrashReplyView::PutBack(true)).stage == TrashStageView::Failed(reason)
                &&& after(TrashReplyView::PutBack(false)).stage == TrashStageView::Failed(reason)
            }
        }),
{
}

/// A path is moved to the trash exactly where nothing keeps it out, by the
/// backend that was asked for, and is told why otherwise.
pub proof fn lemma_moved_exactly(
    platform: Platform,
    path: &PathBuf,
    backend: TrashBackend,
    mounts: &Result<Vec<PathBuf>, String>,
    mount_point: bool,
    place: Option<PathBuf>,
    moved: Result<TrashMove, String>,
)
    requires
        call_ensures(
            trash::move_to_trash,
            (platform, path, backend, mounts, mount_point, place),
            moved,
        ),
    ensures
        ({
            let says = trash::trash_refusal(
                platform,
                path@,
                backend,
                mounts::mounts_view(*mounts),
                mount_point,
                place.deep_view(),
            );
            &&& moved is Ok <==> says is None
            &&& moved matches Err(reason) ==> says == Some(reason@)
            &&& moved matches Ok(way) ==> trash::moves_by(way, path@, backend, place.deep_view())
        }),
{
}

/// What goes into a trash directory goes into its `files`, and what is
/// recorded of it into its `info`, by the path's own name, of which none was
/// found taken yet; what keeps it out is told.
pub proof fn lemma_entry_made(
    platform: Platform,
    path: &PathBuf,
    trash: &PathBuf,
    source_device: u64,
    trash_device: u64,
    made: Result<TrashEntry, String>,
)
    requires
        call_ensures(
            xdg::trash_into,
            (platform, path, trash, source_device, trash_device),
            made,
        ),
    ensures
        ({
            let says = xdg::entry_refusal(platform, path@, source_device, trash_device);
            &&& made is Ok <==> says is None
            &&& made matches Err(reason) ==> says == Some(reason@)
            &&& made matches Ok(entry) ==> {
                &&& entry.files@.parts == trash@.parts.push(
                    Part::Name(vstd::utf8::encode_utf8("files"@)),
                )
                &&& entry.info@.parts == trash@.parts.push(
                    Part::Name(vstd::utf8::encode_utf8("info"@)),
                )
                &&& path@.parts.last() matches Part::Name(name)
                &&& entry.name@ == text::shown(name)
                &&& entry.taken == 0
            }
        }),
{
    spelling::lemma_entry_of(Platform::Linux, trash@, vstd::utf8::encode_utf8("files"@));
    spelling::lemma_entry_of(Platform::Linux, trash@, vstd::utf8::encode_utf8("info"@));
}

/// A file in the trash and its record have the same name but for the
/// record's ending; a file without a record goes back where it came from,
/// for the reason there is none; and a name that is taken is counted.
pub proof fn lemma_entry_places(
    entry: &TrashEntry,
    name: String,
    file: PathBuf,
    record: PathBuf,
    path: &PathBuf,
    written: Result<(), String>,
    settled: Settled,
)
    ensures
        ({
            let tried = xdg::candidate(entry.name@, entry.taken as nat);
            &&& call_ensures(TrashEntry::unique_name, (entry,), name) ==> name@ == tried
            &&& call_ensures(TrashEntry::file_path, (entry,), file) ==> file@.parts
                == entry.files@.parts.push(Part::Name(vstd::utf8::encode_utf8(tried)))
            &&& call_ensures(TrashEntry::info_path, (entry,), record) ==> record@.parts
                == entry.info@.parts.push(
                Part::Name(vstd::utf8::encode_utf8(tried + ".trashinfo"@)),
            )
            &&& call_ensures(TrashEntry::settle, (entry, path, written), settled) ==> {
                &&& settled is Kept <==> written is Ok
                &&& settled matches Settled::PutBack { from, to, said } ==> {
                    &&& to@ == path@
                    &&& from@.parts == entry.files@.parts.push(
                        Part::Name(vstd::utf8::encode_utf8(tried)),
                    )
                    &&& written matches Err(reason) && said@ == reason@
                }
            }
        }),
{
    let tried = xdg::candidate(entry.name@, entry.taken as nat);
    spelling::lemma_entry_of(Platform::Linux, entry.files@, vstd::utf8::encode_utf8(tried));
    spelling::lemma_entry_of(
        Platform::Linux,
        entry.info@,
        vstd::utf8::encode_utf8(tried + ".trashinfo"@),
    );
}

/// What moves a path into the trash does what is stated of it, and encodes a
/// text by its UTF-8 bytes.
pub proof fn lemma_trash_steps_taken(
    path: PathBuf,
    entry: TrashEntry,
    started: Trashing,
    reply: TrashReply,
    after: Trashing,
    request: TrashRequest,
    input: &str,
    encoded: String,
    date: &str,
    info: String,
)
    ensures
        call_ensures(Trashing::start, (path, entry), started) ==> started@.path == path@
            && started@.entry == entry@ && started@.stage is Look,
        call_ensures(Trashing::step, (started, reply), after) ==> after@ == xdg::trash_step(
            started@,
            reply@,
        ),
        call_ensures(Trashing::request, (&started,), request) ==> request@ == xdg::trash_request(
            started@,
        ),
        call_ensures(xdg::percent_encode, (input,), encoded) ==> encoded@ == xdg::percent_encoded(
            vstd::utf8::encode_utf8(input@),
        ),
        call_ensures(xdg::trash_info, (&path, date), info) ==> info@ == xdg::info_text(
            path@,
            date@,
        ),
{
}

/// What each backend is called, and what is said of it.
pub proof fn lemma_backends_told(backend: TrashBackend, label: &'static str, detail: &'static str)
    ensures
        call_ensures(TrashBackend::label, (backend,), label) ==> {
            &&& backend is MacOs ==> label@ == "the Trash"@
            &&& backend is TrashPut ==> label@ == "trash-put"@
            &&& backend is Gio ==> label@ == "gio trash"@
            &&& backend is XdgHome ==> label@ == "XDG trash"@
            &&& backend is RecycleBin ==> label@ == "the Recycle Bin"@
            &&& backend is Unavailable ==> label@ == "no trash tool found"@
        },
        call_ensures(TrashBackend::detail, (backend,), detail) ==> {
            &&& backend is MacOs ==> detail@ == "the same Trash as Finder, on the item's own disk"@
            &&& backend is TrashPut ==> detail@
                == "uses trash-cli, the same trash as your file manager"@
            &&& backend is Gio ==> detail@ == "uses GLib, the same trash as your file manager"@
            &&& backend is XdgHome ==> detail@
                == "moves into ~/.local/share/Trash on the same volume"@
            &&& backend is RecycleBin ==> detail@ == "the same Recycle Bin as File Explorer"@
            &&& backend is Unavailable ==> detail@
                == "install trash-cli or keep deleting permanently"@
        },
{
}

/// What is said where the macOS Trash refuses a path, and that a name that
/// is taken is counted, once, with nothing else changed.
pub proof fn lemma_trash_told(error: &str, says: String, entry: &mut TrashEntry)
    ensures
        call_ensures(trash::macos_trash_failed, (error,), says) ==> says@
            == "could not move to the Trash ("@ + error@
            + "); network and read-only disks have none, so use permanent deletion there"@,
        call_ensures(TrashEntry::is_taken, (entry,), ()) ==> final(entry).taken == old(entry).taken
            + 1 && final(entry).name == old(entry).name && final(entry).files == old(entry).files
            && final(entry).info == old(entry).info,
{
}

/// Whatever can come of what a move into the trash asks for is taken in.
pub proof fn lemma_trash_replies_taken(request: TrashRequestView, reply: TrashReplyView)
    ensures
        xdg::trash_fits(request, reply) <==> match reply {
            TrashReplyView::Taken(_) => request is Look,
            TrashReplyView::Moved(_) => request is Move,
            TrashReplyView::Recorded(_) => request is Record,
            TrashReplyView::PutBack(_) => request is PutBack,
        },
{
}

} // verus!
