//! The XDG trash layout, so there is a trash on machines without `trash-cli`
//! or `GLib`: a directory of trashed files, and beside it one that records
//! where each came from.
//!
//! Only same-volume paths can be trashed this way: the layout forbids
//! copying a file into a trash directory on another filesystem.

use vstd::prelude::*;

use crate::path;
use crate::path::{Part, PathBuf, PathView};
use crate::platform::Platform;
use crate::text;

verus! {

// ---------------------------------------------------------------------
// Percent encoding.
// ---------------------------------------------------------------------

/// A byte that is written as it is.
pub open spec fn is_unreserved(byte: u8) -> bool {
    ||| 48 <= byte <= 57
    ||| 65 <= byte <= 90
    ||| 97 <= byte <= 122
    ||| byte == 47
    ||| byte == 45
    ||| byte == 46
    ||| byte == 95
    ||| byte == 126
}

/// The capital hexadecimal digit for `n`, below sixteen.
pub open spec fn capital_hex(n: u8) -> char {
    if n < 10 {
        (48 + n) as u8 as char
    } else {
        (55 + n) as u8 as char
    }
}

/// How one byte is written.
pub open spec fn percent(byte: u8) -> Seq<char> {
    if is_unreserved(byte) {
        seq![byte as char]
    } else {
        seq!['%', capital_hex(byte / 16), capital_hex(byte % 16)]
    }
}

/// How `bytes` are written: everything outside the unreserved set is
/// escaped, so spaces and newlines survive.
pub open spec fn percent_encoded(bytes: Seq<u8>) -> Seq<char>
    decreases bytes.len(),
{
    if bytes.len() == 0 {
        seq![]
    } else {
        percent(bytes[0]) + percent_encoded(bytes.skip(1))
    }
}

/// The value of a capital hexadecimal digit.
pub open spec fn hex_value(c: char) -> u8 {
    if c <= '9' {
        (c as u32 - 48) as u8
    } else {
        (c as u32 - 55) as u8
    }
}

/// The bytes a percent-encoded text stands for: a percent sign and two
/// hexadecimal digits are the byte they number, any other character is
/// itself.
pub open spec fn percent_decoded(text: Seq<char>) -> Seq<u8>
    decreases text.len(),
{
    if text.len() == 0 {
        seq![]
    } else if text[0] == '%' && text.len() >= 3 {
        seq![(hex_value(text[1]) * 16 + hex_value(text[2])) as u8] + percent_decoded(text.skip(3))
    } else {
        seq![text[0] as u8] + percent_decoded(text.skip(1))
    }
}

/// Whether a byte is written as it is.
fn unreserved(byte: u8) -> (r: bool)
    ensures
        r == is_unreserved(byte),
{
    (48 <= byte && byte <= 57) || (65 <= byte && byte <= 90) || (97 <= byte && byte <= 122) || byte
        == 47 || byte == 45 || byte == 46 || byte == 95 || byte == 126
}

/// The capital hexadecimal digit for `n`.
fn hex_capital(n: u8) -> (r: char)
    requires
        n < 16,
    ensures
        r == capital_hex(n),
{
    if n < 10 {
        (48 + n) as char
    } else {
        (55 + n) as char
    }
}

/// Percent-encode a path for a `.trashinfo` file.
pub fn percent_encode(input: &str) -> (r: String)
    ensures
        r@ == percent_encoded(vstd::utf8::encode_utf8(input@)),
{
    let bytes = input.as_bytes();
    let ghost all = vstd::utf8::encode_utf8(input@);
    let mut out = String::new();
    let mut i: usize = 0;
    assert(all.skip(0) =~= all);
    assert(out@ + percent_encoded(all.skip(0)) =~= percent_encoded(all));
    while i < bytes.len()
        invariant
            i <= bytes@.len(),
            bytes@ == all,
            out@ + percent_encoded(all.skip(i as int)) == percent_encoded(all),
        decreases bytes@.len() - i,
    {
        let byte = bytes[i];
        let ghost before = out@;
        let ghost rest = all.skip(i as int);
        if unreserved(byte) {
            out.push(byte as char);
        } else {
            out.push('%');
            out.push(hex_capital(byte / 16));
            out.push(hex_capital(byte % 16));
        }
        proof {
            assert(rest[0] == byte);
            assert(rest.skip(1) =~= all.skip(i + 1));
            assert(out@ =~= before + percent(byte));
            assert(before + (percent(byte) + percent_encoded(all.skip(i + 1))) =~= out@
                + percent_encoded(all.skip(i + 1)));
        }
        i += 1;
    }
    assert(all.skip(i as int) =~= Seq::<u8>::empty());
    assert(out@ + Seq::<char>::empty() =~= out@);
    out
}

proof fn lemma_percent_byte(byte: u8)
    ensures
        !is_unreserved(byte) ==> (hex_value(capital_hex(byte / 16)) * 16 + hex_value(
            capital_hex(byte % 16),
        )) as u8 == byte,
        is_unreserved(byte) ==> byte as char != '%' && (byte as char) as u8 == byte,
        forall|i: int|
            0 <= i < percent(byte).len() ==> !text::is_ctl(#[trigger] percent(byte)[i]),
{
    let high = byte / 16;
    let low = byte % 16;
    assert(high < 16 && low < 16);
    assert(hex_value(capital_hex(high)) == high);
    assert(hex_value(capital_hex(low)) == low);
    assert(high * 16 + low == byte);
}

/// Decoding gives back what was encoded, so a trashed path can be restored
/// from what is recorded of it.
pub proof fn lemma_percent_round_trip(bytes: Seq<u8>)
    ensures
        percent_decoded(percent_encoded(bytes)) == bytes,
    decreases bytes.len(),
{
    if bytes.len() == 0 {
        assert(percent_decoded(percent_encoded(bytes)) =~= bytes);
    } else {
        let rest = bytes.skip(1);
        let first = percent(bytes[0]);
        let all = percent_encoded(bytes);
        lemma_percent_round_trip(rest);
        lemma_percent_byte(bytes[0]);
        assert(all =~= first + percent_encoded(rest));
        assert(all.skip(first.len() as int) =~= percent_encoded(rest));
        assert(all[0] == first[0]);
        if !is_unreserved(bytes[0]) {
            assert(all[1] == first[1] && all[2] == first[2]);
        }
        assert(seq![bytes[0]] + rest =~= bytes);
    }
}

/// What is encoded holds no control character: it stays on one line.
pub proof fn lemma_percent_one_line(bytes: Seq<u8>)
    ensures
        forall|i: int|
            0 <= i < percent_encoded(bytes).len() ==> !text::is_ctl(
                #[trigger] percent_encoded(bytes)[i],
            ),
    decreases bytes.len(),
{
    if bytes.len() > 0 {
        lemma_percent_one_line(bytes.skip(1));
        lemma_percent_byte(bytes[0]);
        let first = percent(bytes[0]);
        let rest = percent_encoded(bytes.skip(1));
        assert forall|i: int| 0 <= i < percent_encoded(bytes).len() implies !text::is_ctl(
            #[trigger] percent_encoded(bytes)[i],
        ) by {
            if i < first.len() {
                assert(percent_encoded(bytes)[i] == first[i]);
            } else {
                assert(percent_encoded(bytes)[i] == rest[i - first.len()]);
            }
        }
    }
}

// ---------------------------------------------------------------------
// What is recorded of a trashed path.
// ---------------------------------------------------------------------

/// How the date of a deletion is written: ISO 8601, local time.
pub const DATE_FORMAT: &'static str = "%Y-%m-%dT%H:%M:%S";

/// Two digits at `i`.
pub open spec fn two_digits(s: Seq<char>, i: int) -> bool {
    text::is_digit(s[i]) && text::is_digit(s[i + 1])
}

/// A date and time as [`DATE_FORMAT`] writes them: a year of at least four
/// digits, with a plus sign when it has more, then month, day, hour, minute
/// and second, two digits each.
pub open spec fn is_stamp(s: Seq<char>) -> bool {
    let n = s.len() as int;
    &&& n >= 19
    &&& forall|i: int|
        0 <= i < n - 15 ==> text::is_digit(#[trigger] s[i]) || (i == 0 && s[i] == '+')
    &&& s[n - 15] == '-' && two_digits(s, n - 14)
    &&& s[n - 12] == '-' && two_digits(s, n - 11)
    &&& s[n - 9] == 'T' && two_digits(s, n - 8)
    &&& s[n - 6] == ':' && two_digits(s, n - 5)
    &&& s[n - 3] == ':' && two_digits(s, n - 2)
}

/// `chrono::Local::now` and `DateTime::format` with [`DATE_FORMAT`]: the
/// current local date and time, written in that form. Which moment it is
/// depends on the clock and the time zone, and is left unsaid. The call
/// panics when the clock is set before 1970 or past the last date `chrono`
/// has, and when the machine's zone file, or the `TZ` variable, gives an
/// offset of a day or more.
#[verifier::external_body]
fn local_now(format: &str) -> (r: String)
    requires
        format@ == DATE_FORMAT@,
    ensures
        is_stamp(r@),
{
    chrono::Local::now().format(format).to_string()
}

/// The date and time of a deletion that happens now. Panics, as
/// `chrono::Local::now` does, when the clock is set before 1970 or past the
/// last date `chrono` has, and when the machine's zone file, or the `TZ`
/// variable, gives an offset of a day or more.
pub fn deletion_date() -> (r: String)
    ensures
        is_stamp(r@),
{
    local_now(DATE_FORMAT)
}

/// What is recorded of the path trashed at `date`.
pub open spec fn info_text(path: PathView, date: Seq<char>) -> Seq<char> {
    "[Trash Info]\nPath="@ + percent_encoded(vstd::utf8::encode_utf8(text::shown(path.text)))
        + "\nDeletionDate="@ + date + "\n"@
}

/// What is recorded of `path`, trashed at `date`.
pub fn trash_info(path: &PathBuf, date: &str) -> (r: String)
    ensures
        r@ == info_text(path@, date@),
{
    let mut out = "[Trash Info]\nPath=".to_owned();
    let encoded = percent_encode(path.display(Platform::Linux).as_str());
    out.append(encoded.as_str());
    out.append("\nDeletionDate=");
    out.append(date);
    out.append("\n");
    out
}

/// What is recorded of `path`, trashed now. Panics where [`deletion_date`]
/// does: when the clock is set before 1970 or past the last date `chrono`
/// has, and when the machine's zone file, or the `TZ` variable, gives an
/// offset of a day or more.
pub fn trash_info_now(path: &PathBuf) -> (r: String)
    ensures
        exists|date: Seq<char>| #[trigger] info_text(path@, date) == r@ && is_stamp(date),
{
    let date = deletion_date();
    trash_info(path, date.as_str())
}

/// What is recorded is three lines, whatever the path's name: a heading, the
/// path, and the date. Where the path is UTF-8, what is recorded of it
/// decodes to the path that was trashed.
pub proof fn lemma_info_lines(path: PathView, date: Seq<char>)
    requires
        is_stamp(date),
    ensures
        ({
            let encoded = percent_encoded(vstd::utf8::encode_utf8(text::shown(path.text)));
            &&& text::lines(info_text(path, date)) == seq![
                "[Trash Info]"@,
                "Path="@ + encoded,
                "DeletionDate="@ + date,
            ]
            &&& vstd::utf8::valid_utf8(path.text) ==> percent_decoded(encoded) == path.text
        }),
{
    let encoded = percent_encoded(vstd::utf8::encode_utf8(text::shown(path.text)));
    lemma_percent_one_line(vstd::utf8::encode_utf8(text::shown(path.text)));
    lemma_percent_round_trip(vstd::utf8::encode_utf8(text::shown(path.text)));
    if vstd::utf8::valid_utf8(path.text) {
        vstd::utf8::decode_utf8_encode_utf8(path.text);
    }
    reveal_strlit("[Trash Info]\nPath=");
    reveal_strlit("[Trash Info]");
    reveal_strlit("Path=");
    reveal_strlit("\nDeletionDate=");
    reveal_strlit("DeletionDate=");
    reveal_strlit("\n");
    let none = Seq::<char>::empty();
    let a = "[Trash Info]"@;
    let b = "Path="@ + encoded;
    let c = "DeletionDate="@ + date;
    assert forall|i: int| 0 <= i < date.len() implies #[trigger] date[i] != '\n' && date[i]
        != '\r' by {
        let n = date.len() as int;
        if i >= n - 15 {
            assert(two_digits(date, n - 14) && two_digits(date, n - 11) && two_digits(date, n - 8)
                && two_digits(date, n - 5) && two_digits(date, n - 2));
        }
    }
    assert(!a.contains('\n'));
    assert(!b.contains('\n')) by {
        assert forall|i: int| 0 <= i < b.len() implies b[i] != '\n' by {
            if i >= 5 {
                assert(b[i] == encoded[i - 5]);
            }
        }
    }
    assert(!c.contains('\n')) by {
        assert forall|i: int| 0 <= i < c.len() implies c[i] != '\n' by {
            if i >= 13 {
                assert(c[i] == date[i - 13]);
            }
        }
    }
    let whole = info_text(path, date);
    let nl = seq!['\n'];
    assert(whole =~= a + nl + (b + nl + (c + nl + none)));
    text::lemma_pieces_step(a, b + nl + (c + nl + none), '\n');
    text::lemma_pieces_step(b, c + nl + none, '\n');
    text::lemma_pieces_step(c, none, '\n');
    text::lemma_pieces_step(none, none, '\n');
    let all = text::pieces(whole, '\n');
    assert(all =~= seq![a, b, c, none]);
    assert(b.last() != '\r') by {
        if encoded.len() > 0 {
            assert(b.last() == encoded[encoded.len() - 1]);
        }
    }
    assert(c.last() == date[date.len() - 1]);
    assert(text::lines(whole) =~= seq![a, b, c]);
}

// ---------------------------------------------------------------------
// A free name.
// ---------------------------------------------------------------------

/// The names tried for a file called `name`: `name`, then `name.1`,
/// `name.2` and so on.
pub open spec fn candidate(name: Seq<char>, tries: nat) -> Seq<char> {
    if tries == 0 {
        name
    } else {
        name + "."@ + text::decimal(tries)
    }
}

proof fn lemma_decimal_injective(a: nat, b: nat)
    requires
        text::decimal(a) == text::decimal(b),
    ensures
        a == b,
    decreases a,
{
    let x = text::decimal(a);
    let y = text::decimal(b);
    lemma_decimal_len(a);
    lemma_decimal_len(b);
    assert(x.last() == text::digit(a % 10));
    assert(y.last() == text::digit(b % 10));
    assert(a % 10 == b % 10);
    if a < 10 {
        if b >= 10 {
            lemma_decimal_len(b / 10);
            assert(y.len() >= 2);
            assert(x.len() == 1);
        }
    } else {
        lemma_decimal_len(a / 10);
        if b < 10 {
            assert(x.len() >= 2);
            assert(y.len() == 1);
        }
        assert(x.drop_last() =~= text::decimal(a / 10));
        assert(y.drop_last() =~= text::decimal(b / 10));
        lemma_decimal_injective(a / 10, b / 10);
    }
}

proof fn lemma_decimal_len(n: nat)
    ensures
        text::decimal(n).len() >= 1,
{
}

/// No two names tried are the same.
pub proof fn lemma_candidates_distinct(name: Seq<char>, a: nat, b: nat)
    requires
        candidate(name, a) == candidate(name, b),
    ensures
        a == b,
{
    reveal_strlit(".");
    let x = candidate(name, a);
    let y = candidate(name, b);
    if a == 0 && b != 0 {
        assert(y.len() > name.len());
    } else if b == 0 && a != 0 {
        assert(x.len() > name.len());
    } else if a != 0 {
        assert(x.skip(name.len() as int + 1) =~= text::decimal(a));
        assert(y.skip(name.len() as int + 1) =~= text::decimal(b));
        lemma_decimal_injective(a, b);
    }
}

/// Every name tried before the `k`th is one of `entries`, and the `k`th is not.
pub open spec fn is_first_free(name: Seq<char>, entries: Set<Seq<char>>, k: nat) -> bool {
    &&& !entries.contains(candidate(name, k))
    &&& forall|j: nat| j < k ==> entries.contains(#[trigger] candidate(name, j))
}

/// Trying one name after the other comes to one that none of the `entries` of
/// a directory has, after at most as many tries as there are entries.
pub proof fn lemma_free_name(name: Seq<char>, entries: Set<Seq<char>>) -> (k: nat)
    requires
        entries.finite(),
    ensures
        k <= entries.len(),
        is_first_free(name, entries, k),
        forall|other: nat| #[trigger] is_first_free(name, entries, other) ==> other == k,
{
    let k = lemma_free_from(name, entries, 0);
    lemma_all_taken(name, entries, k);
    assert forall|other: nat| #[trigger] is_first_free(name, entries, other) implies other == k by {
        if other < k {
            assert(entries.contains(candidate(name, other)));
        } else if k < other {
            assert(entries.contains(candidate(name, k)));
        }
    }
    k
}

proof fn lemma_free_from(name: Seq<char>, entries: Set<Seq<char>>, from: nat) -> (k: nat)
    requires
        entries.finite(),
        forall|j: nat| j < from ==> entries.contains(#[trigger] candidate(name, j)),
    ensures
        is_first_free(name, entries, k),
    decreases entries.len() + 1 - from,
{
    lemma_all_taken(name, entries, from);
    if entries.contains(candidate(name, from)) {
        lemma_free_from(name, entries, from + 1)
    } else {
        from
    }
}

/// A directory has at least as many entries as names were found taken in it.
proof fn lemma_all_taken(name: Seq<char>, entries: Set<Seq<char>>, n: nat)
    requires
        entries.finite(),
        forall|j: nat| j < n ==> entries.contains(#[trigger] candidate(name, j)),
    ensures
        n <= entries.len(),
    decreases n,
{
    if n > 0 {
        let m = (n - 1) as nat;
        let last = candidate(name, m);
        let rest = entries.remove(last);
        assert forall|j: nat| j < m implies rest.contains(#[trigger] candidate(name, j)) by {
            if candidate(name, j) == last {
                lemma_candidates_distinct(name, j, m);
            }
        }
        lemma_all_taken(name, rest, m);
        assert(entries.contains(last));
    }
}

/// A path on its way into the trash directory: where its file and its
/// record go, and the name it is given there.
#[derive(Debug)]
pub struct TrashEntry {
    /// The directory of trashed files.
    pub files: PathBuf,
    /// The directory of records.
    pub info: PathBuf,
    /// The name of the path itself.
    pub name: String,
    /// How many names were found taken.
    pub taken: u64,
}

/// The directory called `name` in the trash directory.
pub open spec fn trash_subdirectory(trash: PathView, name: Seq<char>) -> PathView {
    path::joined(Platform::Linux, trash, seq![Part::Name(vstd::utf8::encode_utf8(name))])
}

/// The two directories a trash directory holds: of files, and of records.
pub fn trash_layout(trash: &PathBuf) -> (r: (PathBuf, PathBuf))
    ensures
        r.0@ == trash_subdirectory(trash@, "files"@),
        r.1@ == trash_subdirectory(trash@, "info"@),
{
    let files = "files";
    let info = "info";
    (
        trash.join_name(Platform::Linux, files.as_bytes()),
        trash.join_name(Platform::Linux, info.as_bytes()),
    )
}

/// Why a path cannot go into a trash directory, if it cannot.
pub open spec fn entry_refusal(
    platform: Platform,
    path: PathView,
    source_device: u64,
    trash_device: u64,
) -> Option<Seq<char>> {
    if platform is Windows {
        Some("the XDG trash is only implemented on Unix"@)
    } else if source_device != trash_device {
        Some("on a different filesystem than the trash; use permanent deletion"@)
    } else if path::last_name(path.parts) is None {
        Some("refusing to trash a path without a name"@)
    } else {
        None
    }
}

/// Start moving `path`, which is on `source_device`, into the trash
/// directory at `trash`, whose files are on `trash_device`.
pub fn trash_into(
    platform: Platform,
    path: &PathBuf,
    trash: &PathBuf,
    source_device: u64,
    trash_device: u64,
) -> (r: Result<TrashEntry, String>)
    ensures
        match r {
            Ok(entry) => {
                &&& entry_refusal(platform, path@, source_device, trash_device) is None
                &&& entry.files@ == trash_subdirectory(trash@, "files"@)
                &&& entry.info@ == trash_subdirectory(trash@, "info"@)
                &&& entry.name@ == text::shown(path::last_name(path@.parts)->0)
                &&& entry.taken == 0
            },
            Err(reason) => entry_refusal(platform, path@, source_device, trash_device) == Some(
                reason@,
            ),
        },
{
    if let Platform::Windows = platform {
        return Err("the XDG trash is only implemented on Unix".to_owned());
    }
    if source_device != trash_device {
        return Err(
            "on a different filesystem than the trash; use permanent deletion".to_owned(),
        );
    }
    match path.file_name() {
        None => Err("refusing to trash a path without a name".to_owned()),
        Some(name) => {
            let (files, info) = trash_layout(trash);
            let name = text::show(name.as_slice());
            Ok(TrashEntry { files, info, name, taken: 0 })
        },
    }
}

impl TrashEntry {
    /// The name in the trash that is tried now: `name`, or `name.1`,
    /// `name.2`, and so on, until one is free.
    pub fn unique_name(&self) -> (r: String)
        ensures
            r@ == candidate(self.name@, self.taken as nat),
    {
        let mut name = self.name.clone();
        if self.taken > 0 {
            name.append(".");
            text::push_decimal(&mut name, self.taken);
        }
        name
    }

    /// Where the file goes under the name that is tried now.
    pub fn file_path(&self) -> (r: PathBuf)
        ensures
            r@ == trash_subdirectory(self.files@, candidate(self.name@, self.taken as nat)),
    {
        let name = self.unique_name();
        self.files.join_name(Platform::Linux, name.as_str().as_bytes())
    }

    /// Where the record goes under the name that is tried now.
    pub fn info_path(&self) -> (r: PathBuf)
        ensures
            r@ == trash_subdirectory(
                self.info@,
                candidate(self.name@, self.taken as nat) + ".trashinfo"@,
            ),
    {
        let mut name = self.unique_name();
        name.append(".trashinfo");
        self.info.join_name(Platform::Linux, name.as_str().as_bytes())
    }

    /// The name tried is taken: try the next.
    pub fn is_taken(&mut self)
        requires
            old(self).taken < u64::MAX,
        ensures
            final(self).taken == old(self).taken + 1,
            final(self).files == old(self).files,
            final(self).info == old(self).info,
            final(self).name == old(self).name,
    {
        self.taken = self.taken + 1;
    }

    /// What follows the move of `path` to `file_path`, by whether its record
    /// was `written` to `info_path`: without one, the trash could not restore
    /// the file, so the move is undone.
    pub fn settle(&self, path: &PathBuf, written: Result<(), String>) -> (r: Settled)
        ensures
            match written {
                Ok(_) => r is Kept,
                Err(reason) => r matches Settled::PutBack { from, to, said } && from@
                    == trash_subdirectory(self.files@, candidate(self.name@, self.taken as nat))
                    && to@ == path@ && said@ == reason@,
            },
    {
        match written {
            Ok(_) => Settled::Kept,
            Err(said) => Settled::PutBack { from: self.file_path(), to: path.clone(), said },
        }
    }
}

/// How a move into the trash ends.
#[derive(Debug)]
pub enum Settled {
    /// The file stays in the trash, with its record.
    Kept,
    /// The file is moved back, and the move has failed.
    PutBack {
        /// Where the file is in the trash.
        from: PathBuf,
        /// Where it came from.
        to: PathBuf,
        /// Why there is no record.
        said: String,
    },
}

// ---------------------------------------------------------------------
// The move.
// ---------------------------------------------------------------------

/// What a [`TrashEntry`] stands for.
pub struct TrashEntryView {
    pub files: PathView,
    pub info: PathView,
    pub name: Seq<char>,
    pub taken: nat,
}

impl View for TrashEntry {
    type V = TrashEntryView;

    open spec fn view(&self) -> TrashEntryView {
        TrashEntryView {
            files: self.files@,
            info: self.info@,
            name: self.name@,
            taken: self.taken as nat,
        }
    }
}

impl TrashEntryView {
    /// Where the file goes under the name that is tried now.
    pub open spec fn file(self) -> PathView {
        trash_subdirectory(self.files, candidate(self.name, self.taken))
    }

    /// Where the record goes under the name that is tried now.
    pub open spec fn record(self) -> PathView {
        trash_subdirectory(self.info, candidate(self.name, self.taken) + ".trashinfo"@)
    }
}

/// How far a move into the trash has come.
#[derive(Debug)]
pub enum TrashStage {
    /// Looking for a free name.
    Look,
    /// The name is free.
    Move,
    /// The file is in the trash.
    Record,
    /// There is no record, for this reason, and the file goes back.
    PutBack(String),
    /// The file is in the trash, with its record.
    Done,
    /// It failed, for this reason.
    Failed(String),
}

/// What a [`TrashStage`] stands for.
pub enum TrashStageView {
    Look,
    Move,
    Record,
    PutBack(Seq<char>),
    Done,
    Failed(Seq<char>),
}

impl View for TrashStage {
    type V = TrashStageView;

    open spec fn view(&self) -> TrashStageView {
        match *self {
            TrashStage::Look => TrashStageView::Look,
            TrashStage::Move => TrashStageView::Move,
            TrashStage::Record => TrashStageView::Record,
            TrashStage::PutBack(reason) => TrashStageView::PutBack(reason@),
            TrashStage::Done => TrashStageView::Done,
            TrashStage::Failed(reason) => TrashStageView::Failed(reason@),
        }
    }
}

/// A path being moved into the trash.
#[derive(Debug)]
pub struct Trashing {
    pub path: PathBuf,
    pub entry: TrashEntry,
    pub stage: TrashStage,
}

/// What a [`Trashing`] stands for.
pub struct TrashingView {
    pub path: PathView,
    pub entry: TrashEntryView,
    pub stage: TrashStageView,
}

impl View for Trashing {
    type V = TrashingView;

    open spec fn view(&self) -> TrashingView {
        TrashingView { path: self.path@, entry: self.entry@, stage: self.stage@ }
    }
}

/// What is asked for next.
#[derive(Debug)]
pub enum TrashRequest {
    /// Whether anything is at this path, a link that leads nowhere too.
    Look(PathBuf),
    /// Rename the one to the other.
    Move { from: PathBuf, to: PathBuf },
    /// Write the record of the move here.
    Record(PathBuf),
    /// Rename the one back to the other.
    PutBack { from: PathBuf, to: PathBuf },
    /// Nothing: the path is in the trash.
    Done,
    /// Nothing more, for this reason.
    Failed(String),
}

/// What a [`TrashRequest`] stands for.
pub enum TrashRequestView {
    Look(PathView),
    Move { from: PathView, to: PathView },
    Record(PathView),
    PutBack { from: PathView, to: PathView },
    Done,
    Failed(Seq<char>),
}

impl View for TrashRequest {
    type V = TrashRequestView;

    open spec fn view(&self) -> TrashRequestView {
        match *self {
            TrashRequest::Look(path) => TrashRequestView::Look(path@),
            TrashRequest::Move { from, to } => TrashRequestView::Move { from: from@, to: to@ },
            TrashRequest::Record(path) => TrashRequestView::Record(path@),
            TrashRequest::PutBack { from, to } => TrashRequestView::PutBack {
                from: from@,
                to: to@,
            },
            TrashRequest::Done => TrashRequestView::Done,
            TrashRequest::Failed(reason) => TrashRequestView::Failed(reason@),
        }
    }
}

/// What came of a [`TrashRequest`].
#[derive(Debug)]
pub enum TrashReply {
    /// Something is there, or nothing is.
    Taken(bool),
    /// The path was renamed, or why not.
    Moved(Result<(), String>),
    /// The record was written, or why not.
    Recorded(Result<(), String>),
    /// The path was renamed back, or was not.
    PutBack(bool),
}

/// What a [`TrashReply`] stands for.
pub enum TrashReplyView {
    Taken(bool),
    Moved(Result<(), Seq<char>>),
    Recorded(Result<(), Seq<char>>),
    PutBack(bool),
}

/// How an operation went.
pub open spec fn went(outcome: Result<(), String>) -> Result<(), Seq<char>> {
    match outcome {
        Ok(_) => Ok(()),
        Err(reason) => Err(reason@),
    }
}

impl View for TrashReply {
    type V = TrashReplyView;

    open spec fn view(&self) -> TrashReplyView {
        match *self {
            TrashReply::Taken(there) => TrashReplyView::Taken(there),
            TrashReply::Moved(outcome) => TrashReplyView::Moved(went(outcome)),
            TrashReply::Recorded(outcome) => TrashReplyView::Recorded(went(outcome)),
            TrashReply::PutBack(done) => TrashReplyView::PutBack(done),
        }
    }
}

/// What a move into the trash asks for next.
pub open spec fn trash_request(trashing: TrashingView) -> TrashRequestView {
    let TrashingView { path, entry, stage } = trashing;
    match stage {
        TrashStageView::Look => TrashRequestView::Look(entry.file()),
        TrashStageView::Move => TrashRequestView::Move { from: path, to: entry.file() },
        TrashStageView::Record => TrashRequestView::Record(entry.record()),
        TrashStageView::PutBack(_) => TrashRequestView::PutBack { from: entry.file(), to: path },
        TrashStageView::Done => TrashRequestView::Done,
        TrashStageView::Failed(reason) => TrashRequestView::Failed(reason),
    }
}

/// Whether `reply` is what can come of `request`.
pub open spec fn trash_fits(request: TrashRequestView, reply: TrashReplyView) -> bool {
    match request {
        TrashRequestView::Look(_) => reply is Taken,
        TrashRequestView::Move { .. } => reply is Moved,
        TrashRequestView::Record(_) => reply is Recorded,
        TrashRequestView::PutBack { .. } => reply is PutBack,
        TrashRequestView::Done | TrashRequestView::Failed(_) => false,
    }
}

/// A move into the trash after what it asked for came to `reply`: the names
/// are tried in order, and a file that gets no record is put back.
pub open spec fn trash_step(trashing: TrashingView, reply: TrashReplyView) -> TrashingView {
    let entry = trashing.entry;
    match (trashing.stage, reply) {
        (TrashStageView::Look, TrashReplyView::Taken(there)) => if !there {
            TrashingView { stage: TrashStageView::Move, ..trashing }
        } else if entry.taken < u64::MAX {
            TrashingView {
                entry: TrashEntryView { taken: entry.taken + 1, ..entry },
                ..trashing
            }
        } else {
            TrashingView {
                stage: TrashStageView::Failed("every name in the trash is taken"@),
                ..trashing
            }
        },
        (TrashStageView::Move, TrashReplyView::Moved(outcome)) => TrashingView {
            stage: match outcome {
                Ok(_) => TrashStageView::Record,
                Err(reason) => TrashStageView::Failed(reason),
            },
            ..trashing
        },
        (TrashStageView::Record, TrashReplyView::Recorded(outcome)) => TrashingView {
            stage: match outcome {
                Ok(_) => TrashStageView::Done,
                Err(reason) => TrashStageView::PutBack(reason),
            },
            ..trashing
        },
        (TrashStageView::PutBack(reason), TrashReplyView::PutBack(_)) => TrashingView {
            stage: TrashStageView::Failed(reason),
            ..trashing
        },
        _ => trashing,
    }
}

impl Trashing {
    /// Start moving `path` to `entry`.
    pub fn start(path: PathBuf, entry: TrashEntry) -> (r: Trashing)
        ensures
            r@ == (TrashingView { path: path@, entry: entry@, stage: TrashStageView::Look }),
    {
        Trashing { path, entry, stage: TrashStage::Look }
    }

    /// What is asked for next.
    pub fn request(&self) -> (r: TrashRequest)
        ensures
            r@ == trash_request(self@),
    {
        match &self.stage {
            TrashStage::Look => TrashRequest::Look(self.entry.file_path()),
            TrashStage::Move => TrashRequest::Move {
                from: self.path.clone(),
                to: self.entry.file_path(),
            },
            TrashStage::Record => TrashRequest::Record(self.entry.info_path()),
            TrashStage::PutBack(_) => TrashRequest::PutBack {
                from: self.entry.file_path(),
                to: self.path.clone(),
            },
            TrashStage::Done => TrashRequest::Done,
            TrashStage::Failed(reason) => TrashRequest::Failed(reason.clone()),
        }
    }

    /// Take in what came of the last request.
    pub fn step(self, reply: TrashReply) -> (r: Trashing)
        requires
            trash_fits(trash_request(self@), reply@),
        ensures
            r@ == trash_step(self@, reply@),
    {
        let Trashing { path, mut entry, stage } = self;
        let stage = match (stage, reply) {
            (TrashStage::Look, TrashReply::Taken(there)) => {
                if !there {
                    TrashStage::Move
                } else if entry.taken < u64::MAX {
                    entry.is_taken();
                    TrashStage::Look
                } else {
                    TrashStage::Failed("every name in the trash is taken".to_owned())
                }
            },
            (TrashStage::Move, TrashReply::Moved(outcome)) => match outcome {
                Ok(_) => TrashStage::Record,
                Err(reason) => TrashStage::Failed(reason),
            },
            (TrashStage::Record, TrashReply::Recorded(outcome)) => {
                match entry.settle(&path, outcome) {
                    Settled::Kept => TrashStage::Done,
                    Settled::PutBack { said, .. } => TrashStage::PutBack(said),
                }
            },
            (TrashStage::PutBack(reason), TrashReply::PutBack(_)) => TrashStage::Failed(reason),
            (stage, _) => stage,
        };
        Trashing { path, entry, stage }
    }
}

/// A move into the trash after `replies`.
pub open spec fn trash_after(trashing: TrashingView, replies: Seq<TrashReplyView>) -> TrashingView
    decreases replies.len(),
{
    if replies.len() == 0 {
        trashing
    } else {
        trash_step(trash_after(trashing, replies.drop_last()), replies.last())
    }
}

/// Each of `replies` is what can come of the request it is for.
pub open spec fn trash_all_fit(trashing: TrashingView, replies: Seq<TrashReplyView>) -> bool
    decreases replies.len(),
{
    replies.len() > 0 ==> {
        let front = replies.drop_last();
        &&& trash_all_fit(trashing, front)
        &&& trash_fits(trash_request(trash_after(trashing, front)), replies.last())
    }
}

/// Whether, by `replies`, the file is in the trash and no longer where it
/// was.
pub open spec fn is_away(replies: Seq<TrashReplyView>) -> bool
    decreases replies.len(),
{
    if replies.len() == 0 {
        false
    } else {
        match replies.last() {
            TrashReplyView::Moved(Ok(_)) => true,
            TrashReplyView::PutBack(true) => false,
            _ => is_away(replies.drop_last()),
        }
    }
}

/// The first `n` of `replies` say that a name is taken.
pub open spec fn taken_first(replies: Seq<TrashReplyView>, n: nat) -> bool {
    &&& n <= replies.len()
    &&& forall|i: int| 0 <= i < n ==> #[trigger] replies[i] == TrashReplyView::Taken(true)
}

/// A move into the trash that ends well leaves the file there, with its
/// record; one that fails leaves it where it was, unless it was moved and
/// could not be moved back. It is moved to the first of the names tried that
/// is free, and to none that was found taken.
pub proof fn lemma_trash_outcome(
    path: PathView,
    entry: TrashEntryView,
    replies: Seq<TrashReplyView>,
)
    requires
        entry.taken == 0,
        trash_all_fit(TrashingView { path, entry, stage: TrashStageView::Look }, replies),
    ensures
        ({
            let start = TrashingView { path, entry, stage: TrashStageView::Look };
            let after = trash_after(start, replies);
            let n = after.entry.taken;
            &&& after.path == path
            &&& after.entry == (TrashEntryView { taken: n, ..entry })
            &&& taken_first(replies, n)
            &&& match after.stage {
                TrashStageView::Look => replies.len() == n && !is_away(replies),
                TrashStageView::Move => replies.len() == n + 1 && replies[n as int]
                    == TrashReplyView::Taken(false) && !is_away(replies),
                TrashStageView::Record | TrashStageView::PutBack(_) => is_away(replies),
                TrashStageView::Done => is_away(replies) && (replies.last() matches
                    TrashReplyView::Recorded(outcome) && outcome is Ok),
                TrashStageView::Failed(_) => is_away(replies) ==> replies.last()
                    == TrashReplyView::PutBack(false),
            }
        }),
    decreases replies.len(),
{
    let start = TrashingView { path, entry, stage: TrashStageView::Look };
    if replies.len() > 0 {
        let front = replies.drop_last();
        lemma_trash_outcome(path, entry, front);
        let before = trash_after(start, front);
        let n = before.entry.taken;
        assert forall|i: int| 0 <= i < n implies #[trigger] replies[i] == TrashReplyView::Taken(
            true,
        ) by {
            assert(front[i] == replies[i]);
        }
        assert(replies[replies.len() - 1] == replies.last());
    }
}

} // verus!
