//! Paths as plain values: how one is spelled, and the components it has.

use vstd::prelude::*;

use crate::order;
use crate::platform::Platform;
use crate::text;
use crate::wide;

verus! {

// ---------------------------------------------------------------------
// Components.
// ---------------------------------------------------------------------

/// What a Windows path may start with.
#[derive(Debug)]
pub enum Prefix {
    /// `\\?\name`
    Verbatim(Vec<u8>),
    /// `\\?\UNC\server\share`
    VerbatimUnc(Vec<u8>, Vec<u8>),
    /// `\\?\C:`, by its letter.
    VerbatimDisk(u8),
    /// `\\.\name`
    DeviceNs(Vec<u8>),
    /// `\\server\share`
    Unc(Vec<u8>, Vec<u8>),
    /// `C:`, by its letter.
    Disk(u8),
}

/// One component of a path. Names are the bytes of the name.
#[derive(Debug)]
pub enum Component {
    Prefix(Prefix),
    RootDir,
    CurDir,
    ParentDir,
    Normal(Vec<u8>),
}

/// What a [`Prefix`] stands for.
pub enum PrefixPart {
    Verbatim(Seq<u8>),
    VerbatimUnc(Seq<u8>, Seq<u8>),
    VerbatimDisk(u8),
    DeviceNs(Seq<u8>),
    Unc(Seq<u8>, Seq<u8>),
    Disk(u8),
}

/// What a [`Component`] stands for.
pub enum Part {
    Prefix(PrefixPart),
    Root,
    Cur,
    Parent,
    Name(Seq<u8>),
}

impl View for Prefix {
    type V = PrefixPart;

    open spec fn view(&self) -> PrefixPart {
        match *self {
            Prefix::Verbatim(name) => PrefixPart::Verbatim(name@),
            Prefix::VerbatimUnc(server, share) => PrefixPart::VerbatimUnc(server@, share@),
            Prefix::VerbatimDisk(letter) => PrefixPart::VerbatimDisk(letter),
            Prefix::DeviceNs(name) => PrefixPart::DeviceNs(name@),
            Prefix::Unc(server, share) => PrefixPart::Unc(server@, share@),
            Prefix::Disk(letter) => PrefixPart::Disk(letter),
        }
    }
}

impl View for Component {
    type V = Part;

    open spec fn view(&self) -> Part {
        match *self {
            Component::Prefix(prefix) => Part::Prefix(prefix@),
            Component::RootDir => Part::Root,
            Component::CurDir => Part::Cur,
            Component::ParentDir => Part::Parent,
            Component::Normal(name) => Part::Name(name@),
        }
    }
}

impl DeepView for Component {
    type V = Part;

    open spec fn deep_view(&self) -> Part {
        self@
    }
}

/// A copy of a byte string.
pub fn copy_bytes(bytes: &Vec<u8>) -> (r: Vec<u8>)
    ensures
        r@ == bytes@,
{
    vstd::slice::slice_to_vec(bytes.as_slice())
}

impl Clone for Prefix {
    fn clone(&self) -> (r: Self)
        ensures
            r@ == self@,
    {
        match self {
            Prefix::Verbatim(name) => Prefix::Verbatim(copy_bytes(name)),
            Prefix::VerbatimUnc(server, share) => Prefix::VerbatimUnc(
                copy_bytes(server),
                copy_bytes(share),
            ),
            Prefix::VerbatimDisk(letter) => Prefix::VerbatimDisk(*letter),
            Prefix::DeviceNs(name) => Prefix::DeviceNs(copy_bytes(name)),
            Prefix::Unc(server, share) => Prefix::Unc(copy_bytes(server), copy_bytes(share)),
            Prefix::Disk(letter) => Prefix::Disk(*letter),
        }
    }
}

impl Clone for Component {
    fn clone(&self) -> (r: Self)
        ensures
            r@ == self@,
    {
        match self {
            Component::Prefix(prefix) => Component::Prefix(prefix.clone()),
            Component::RootDir => Component::RootDir,
            Component::CurDir => Component::CurDir,
            Component::ParentDir => Component::ParentDir,
            Component::Normal(name) => Component::Normal(copy_bytes(name)),
        }
    }
}

impl Prefix {
    /// Whether both prefixes stand for the same thing.
    pub fn same(&self, other: &Prefix) -> (r: bool)
        ensures
            r == (self@ == other@),
    {
        match (self, other) {
            (Prefix::Verbatim(a), Prefix::Verbatim(b)) => text::same_units(a.as_slice(), b.as_slice()),
            (Prefix::VerbatimUnc(a, c), Prefix::VerbatimUnc(b, d)) => text::same_units(
                a.as_slice(),
                b.as_slice(),
            ) && text::same_units(c.as_slice(), d.as_slice()),
            (Prefix::VerbatimDisk(a), Prefix::VerbatimDisk(b)) => *a == *b,
            (Prefix::DeviceNs(a), Prefix::DeviceNs(b)) => text::same_units(a.as_slice(), b.as_slice()),
            (Prefix::Unc(a, c), Prefix::Unc(b, d)) => text::same_units(a.as_slice(), b.as_slice())
                && text::same_units(c.as_slice(), d.as_slice()),
            (Prefix::Disk(a), Prefix::Disk(b)) => *a == *b,
            _ => false,
        }
    }
}

impl Component {
    /// Whether both components stand for the same thing.
    pub fn same(&self, other: &Component) -> (r: bool)
        ensures
            r == (self@ == other@),
    {
        match (self, other) {
            (Component::Prefix(a), Component::Prefix(b)) => a.same(b),
            (Component::RootDir, Component::RootDir) => true,
            (Component::CurDir, Component::CurDir) => true,
            (Component::ParentDir, Component::ParentDir) => true,
            (Component::Normal(a), Component::Normal(b)) => text::same_units(a.as_slice(), b.as_slice()),
            _ => false,
        }
    }
}

// ---------------------------------------------------------------------
// Paths.
// ---------------------------------------------------------------------

/// A path: the bytes it is spelled with, and its components.
///
/// On Unix the components follow from the spelling (see [`unix_parts`] and
/// [`PathView::wf`]). A Windows path comes with the components Windows reads
/// in it.
#[derive(Debug)]
pub struct PathBuf {
    pub text: Vec<u8>,
    pub parts: Vec<Component>,
}

/// What a [`PathBuf`] stands for.
pub struct PathView {
    pub text: Seq<u8>,
    pub parts: Seq<Part>,
}

impl View for PathBuf {
    type V = PathView;

    open spec fn view(&self) -> PathView {
        PathView { text: self.text@, parts: self.parts.deep_view() }
    }
}

impl DeepView for PathBuf {
    type V = PathView;

    open spec fn deep_view(&self) -> PathView {
        self@
    }
}

/// How the bytes of a path, or of a name in one, are shown. On Windows they
/// are UTF-8 but for lone surrogates, and each of those is shown as one
/// replacement character.
pub open spec fn displayed(platform: Platform, bytes: Seq<u8>) -> Seq<char> {
    if platform is Windows {
        text::shown(text::mended(bytes))
    } else {
        text::shown(bytes)
    }
}

/// A path or a name that is UTF-8 is shown as the text it is, on every
/// platform.
pub proof fn lemma_displayed_text(platform: Platform, s: Seq<char>)
    ensures
        displayed(platform, vstd::utf8::encode_utf8(s)) == s,
{
    vstd::utf8::encode_utf8_valid_utf8(s);
    vstd::utf8::encode_utf8_decode_utf8(s);
    text::lemma_mended_valid(vstd::utf8::encode_utf8(s));
}

/// How the bytes of a path, or of a name in one, are shown.
pub fn display_bytes(platform: Platform, bytes: &[u8]) -> (r: String)
    ensures
        r@ == displayed(platform, bytes@),
{
    match platform {
        Platform::Windows => text::show(text::mend(bytes).as_slice()),
        _ => text::show(bytes),
    }
}

/// A copy of a list of components.
pub fn copy_parts(parts: &[Component]) -> (r: Vec<Component>)
    ensures
        r.deep_view() == parts.deep_view(),
{
    let mut out: Vec<Component> = Vec::new();
    let mut i: usize = 0;
    while i < parts.len()
        invariant
            i <= parts@.len(),
            out@.len() == i,
            forall|j: int| 0 <= j < i ==> (#[trigger] out@[j])@ == parts@[j]@,
        decreases parts@.len() - i,
    {
        out.push(parts[i].clone());
        i += 1;
    }
    assert(out.deep_view() =~= parts.deep_view());
    out
}

impl Clone for PathBuf {
    fn clone(&self) -> (r: Self)
        ensures
            r@ == self@,
    {
        PathBuf { text: copy_bytes(&self.text), parts: copy_parts(self.parts.as_slice()) }
    }
}

// ---------------------------------------------------------------------
// Reading a Unix path.
// ---------------------------------------------------------------------

/// The component one piece between slashes is. Empty pieces are none, and a
/// dot is one only where a relative path starts with it.
pub open spec fn piece_part(piece: Seq<u8>, leads: bool) -> Seq<Part> {
    if piece.len() == 0 {
        seq![]
    } else if piece == seq![46u8] {
        if leads {
            seq![Part::Cur]
        } else {
            seq![]
        }
    } else if piece == seq![46u8, 46u8] {
        seq![Part::Parent]
    } else {
        seq![Part::Name(piece)]
    }
}

/// The components of the pieces of a path, which is absolute if `rooted`.
pub open spec fn piece_parts(all: Seq<Seq<u8>>, rooted: bool) -> Seq<Part>
    decreases all.len(),
{
    if all.len() == 0 {
        seq![]
    } else {
        piece_parts(all.drop_last(), rooted) + piece_part(all.last(), all.len() == 1 && !rooted)
    }
}

/// Whether a Unix path spelled `text` is absolute.
pub open spec fn rooted(text: Seq<u8>) -> bool {
    text.len() > 0 && text[0] == 47
}

/// The components of a Unix path spelled `text`.
pub open spec fn unix_parts(text: Seq<u8>) -> Seq<Part> {
    (if rooted(text) {
        seq![Part::Root]
    } else {
        seq![]
    }) + piece_parts(text::pieces(text, 47), rooted(text))
}

/// The Unix path spelled `text`.
pub open spec fn unix_path(text: Seq<u8>) -> PathView {
    PathView { text, parts: unix_parts(text) }
}

impl PathView {
    /// On Unix, the components are those of the spelling.
    pub open spec fn wf(self, platform: Platform) -> bool {
        platform is Windows || self.parts == unix_parts(self.text)
    }
}

/// The component of one piece between slashes.
fn read_piece(piece: &Vec<u8>, leads: bool) -> (r: Option<Component>)
    ensures
        match r {
            Some(part) => piece_part(piece@, leads) == seq![part@],
            None => piece_part(piece@, leads) == Seq::<Part>::empty(),
        },
{
    if piece.len() == 0 {
        return None;
    }
    if piece.len() == 1 && piece[0] == 46 {
        assert(piece@ =~= seq![46u8]);
        return if leads {
            Some(Component::CurDir)
        } else {
            None
        };
    }
    if piece.len() == 2 && piece[0] == 46 && piece[1] == 46 {
        assert(piece@ =~= seq![46u8, 46u8]);
        assert(piece@ != seq![46u8]);
        return Some(Component::ParentDir);
    }
    assert(piece@ != seq![46u8]);
    assert(piece@ != seq![46u8, 46u8]);
    Some(Component::Normal(copy_bytes(piece)))
}

/// The components of the pieces `all` of a path, which is absolute if
/// `rooted`.
pub(crate) fn read_pieces(all: &[Vec<u8>], rooted: bool, whole: Ghost<Seq<Seq<u8>>>) -> (r: Vec<
    Component,
>)
    requires
        all@.len() == whole@.len(),
        forall|k: int| 0 <= k < all@.len() ==> (#[trigger] all@[k])@ == whole@[k],
    ensures
        r.deep_view() == piece_parts(whole@, rooted),
{
    let ghost pieces = whole@;
    let mut parts: Vec<Component> = Vec::new();
    let mut i: usize = 0;
    assert(parts.deep_view() =~= piece_parts(pieces.take(0), rooted));
    while i < all.len()
        invariant
            i <= all@.len(),
            all@.len() == pieces.len(),
            forall|k: int| 0 <= k < all@.len() ==> (#[trigger] all@[k])@ == pieces[k],
            parts.deep_view() == piece_parts(pieces.take(i as int), rooted),
        decreases all@.len() - i,
    {
        let ghost before = parts.deep_view();
        proof {
            let next = pieces.take(i + 1);
            assert(next.drop_last() =~= pieces.take(i as int));
            assert(next.last() == pieces[i as int]);
        }
        let read = read_piece(&all[i], i == 0 && !rooted);
        let ghost more = piece_part(pieces[i as int], i == 0 && !rooted);
        if let Some(part) = read {
            parts.push(part);
            assert(parts.deep_view() =~= before + more);
        }
        assert(parts.deep_view() =~= before + more);
        i += 1;
    }
    assert(pieces.take(pieces.len() as int) =~= pieces);
    parts
}

impl PathBuf {
    /// The Unix path spelled `text`.
    pub fn unix(text: Vec<u8>) -> (r: PathBuf)
        ensures
            r@ == unix_path(text@),
    {
        let all = text::split_all(text.as_slice(), 47u8);
        let absolute: bool = text.len() > 0 && text[0] == 47;
        let mut parts: Vec<Component> = Vec::new();
        if absolute {
            parts.push(Component::RootDir);
        }
        let ghost lead = parts.deep_view();
        assert(lead =~= (if rooted(text@) {
            seq![Part::Root]
        } else {
            seq![]
        }));
        let mut read = read_pieces(all.as_slice(), absolute, Ghost(text::pieces(text@, 47)));
        let ghost more = read.deep_view();
        parts.append(&mut read);
        assert(parts.deep_view() =~= lead + more);
        PathBuf { text, parts }
    }

    /// The Unix path spelled with the UTF-8 bytes of `text`.
    pub fn of(text: &str) -> (r: PathBuf)
        ensures
            r@ == unix_path(vstd::utf8::encode_utf8(text@)),
    {
        PathBuf::unix(vstd::slice::slice_to_vec(text.as_bytes()))
    }
}

// ---------------------------------------------------------------------
// Comparing paths by their components.
// ---------------------------------------------------------------------

/// Whether the two lists stand for the same components.
pub fn same_parts(a: &[Component], b: &[Component]) -> (r: bool)
    ensures
        r == (a.deep_view() == b.deep_view()),
{
    if a.len() != b.len() {
        assert(a.deep_view().len() != b.deep_view().len());
        return false;
    }
    let mut i: usize = 0;
    while i < a.len()
        invariant
            i <= a@.len(),
            a@.len() == b@.len(),
            forall|j: int| 0 <= j < i ==> (#[trigger] a@[j])@ == b@[j]@,
        decreases a@.len() - i,
    {
        if !a[i].same(&b[i]) {
            assert(a.deep_view()[i as int] != b.deep_view()[i as int]);
            return false;
        }
        i += 1;
    }
    assert(a.deep_view() =~= b.deep_view());
    true
}

/// `path` is `base` or inside it, by whole components.
pub open spec fn inside(path: Seq<Part>, base: Seq<Part>) -> bool {
    base.len() <= path.len() && path.take(base.len() as int) == base
}

impl PathBuf {
    /// Whether both paths have the same components.
    pub fn same(&self, other: &PathBuf) -> (r: bool)
        ensures
            r == (self@.parts == other@.parts),
    {
        same_parts(self.parts.as_slice(), other.parts.as_slice())
    }

    /// Whether this path is `base` or inside it, by whole components.
    pub fn starts_with(&self, base: &PathBuf) -> (r: bool)
        ensures
            r == inside(self@.parts, base@.parts),
    {
        if base.parts.len() > self.parts.len() {
            return false;
        }
        let head = vstd::slice::slice_subrange(self.parts.as_slice(), 0, base.parts.len());
        assert(head.deep_view() =~= self@.parts.take(base@.parts.len() as int));
        same_parts(head, base.parts.as_slice())
    }

    /// The components below `base`, when this path is `base` or inside it.
    pub fn strip_prefix(&self, base: &PathBuf) -> (r: Option<Vec<Component>>)
        ensures
            match r {
                Some(rest) => inside(self@.parts, base@.parts) && rest.deep_view()
                    == self@.parts.skip(base@.parts.len() as int),
                None => !inside(self@.parts, base@.parts),
            },
    {
        if !self.starts_with(base) {
            return None;
        }
        let rest = vstd::slice::slice_subrange(
            self.parts.as_slice(),
            base.parts.len(),
            self.parts.len(),
        );
        assert(rest.deep_view() =~= self@.parts.skip(base@.parts.len() as int));
        Some(copy_parts(rest))
    }
}

/// Two paths are equal when their components are, however they are spelled.
impl PartialEq for PathBuf {
    fn eq(&self, other: &PathBuf) -> (r: bool) {
        self.same(other)
    }
}

impl vstd::std_specs::cmp::PartialEqSpecImpl for PathBuf {
    open spec fn obeys_eq_spec() -> bool {
        true
    }

    open spec fn eq_spec(&self, other: &PathBuf) -> bool {
        self@.parts == other@.parts
    }
}

impl Eq for PathBuf {

}

/// What is inside a directory inside a third is inside the third.
pub proof fn lemma_inside_transitive(a: Seq<Part>, b: Seq<Part>, c: Seq<Part>)
    requires
        inside(a, b),
        inside(b, c),
    ensures
        inside(a, c),
{
    assert(a.take(c.len() as int) =~= b.take(c.len() as int)) by {
        assert forall|i: int| 0 <= i < c.len() implies a[i] == #[trigger] b[i] by {
            assert(a.take(b.len() as int)[i] == b[i]);
        }
    }
}

// ---------------------------------------------------------------------
// The order of paths.
// ---------------------------------------------------------------------

/// What decides the order of two components, most significant first: which
/// kind of component, which kind of prefix, and the names in it.
pub open spec fn part_rank(part: Part) -> (int, int, Seq<u8>, Seq<u8>) {
    match part {
        Part::Prefix(prefix) => match prefix {
            PrefixPart::Verbatim(name) => (0, 0, name, seq![]),
            PrefixPart::VerbatimUnc(server, share) => (0, 1, server, share),
            PrefixPart::VerbatimDisk(letter) => (0, 2, seq![letter], seq![]),
            PrefixPart::DeviceNs(name) => (0, 3, name, seq![]),
            PrefixPart::Unc(server, share) => (0, 4, server, share),
            PrefixPart::Disk(letter) => (0, 5, seq![letter], seq![]),
        },
        Part::Root => (1, 0, seq![], seq![]),
        Part::Cur => (2, 0, seq![], seq![]),
        Part::Parent => (3, 0, seq![], seq![]),
        Part::Name(name) => (4, 0, name, seq![]),
    }
}

/// Component `a` comes before component `b`.
pub open spec fn part_less(a: Part, b: Part) -> bool {
    let x = part_rank(a);
    let y = part_rank(b);
    if x.0 != y.0 {
        x.0 < y.0
    } else if x.1 != y.1 {
        x.1 < y.1
    } else if x.2 != y.2 {
        order::bytes_less(x.2, y.2)
    } else {
        order::bytes_less(x.3, y.3)
    }
}

/// [`part_less`] as a function value.
pub open spec fn part_order() -> spec_fn(Part, Part) -> bool {
    |a: Part, b: Part| part_less(a, b)
}

/// A path with the components `a` comes before one with the components `b`.
pub open spec fn path_less(a: Seq<Part>, b: Seq<Part>) -> bool {
    order::lex_less(a, b, part_order())
}

/// Components that rank the same are the same.
pub proof fn lemma_rank_injective(a: Part, b: Part)
    requires
        part_rank(a) == part_rank(b),
    ensures
        a == b,
{
    if let Part::Prefix(p) = a {
        if let Part::Prefix(q) = b {
            match p {
                PrefixPart::VerbatimDisk(x) => {
                    assert(part_rank(a).2[0] == x);
                    if let PrefixPart::VerbatimDisk(y) = q {
                        assert(part_rank(b).2[0] == y);
                    }
                },
                PrefixPart::Disk(x) => {
                    assert(part_rank(a).2[0] == x);
                    if let PrefixPart::Disk(y) = q {
                        assert(part_rank(b).2[0] == y);
                    }
                },
                _ => {},
            }
        }
    }
}

/// Components, and so paths, are strictly and totally ordered.
pub proof fn lemma_path_order()
    ensures
        forall|a: Seq<Part>| !(#[trigger] path_less(a, a)),
        forall|a: Seq<Part>, b: Seq<Part>, c: Seq<Part>| #[trigger]
            path_less(a, b) && #[trigger] path_less(b, c) ==> path_less(a, c),
        forall|a: Seq<Part>, b: Seq<Part>| a != b ==> #[trigger] path_less(a, b) || path_less(b, a),
{
    let less = part_order();
    order::lemma_bytes_total();
    assert forall|a: Part, b: Part| a != b implies #[trigger] less(a, b) || less(b, a) by {
        if part_rank(a) == part_rank(b) {
            lemma_rank_injective(a, b);
        }
    }
    assert(order::strict_total(less));
    order::lemma_lex_total(less);
    let f = order::lex(less);
    assert forall|a: Seq<Part>| !(#[trigger] path_less(a, a)) by {
        assert(!f(a, a));
    }
    assert forall|a: Seq<Part>, b: Seq<Part>, c: Seq<Part>| #[trigger]
        path_less(a, b) && #[trigger] path_less(b, c) implies path_less(a, c) by {
        assert(f(a, b) && f(b, c));
    }
    assert forall|a: Seq<Part>, b: Seq<Part>| a != b implies #[trigger] path_less(a, b)
        || path_less(b, a) by {
        assert(f(a, b) || f(b, a));
    }
}

/// A directory comes before what is inside it.
pub proof fn lemma_inside_after(path: Seq<Part>, base: Seq<Part>)
    requires
        inside(path, base),
        path != base,
    ensures
        path_less(base, path),
{
    if path.len() == base.len() {
        assert(path.take(base.len() as int) =~= path);
    }
    order::lemma_lex_prefix(base, path, part_order());
}

impl Component {
    /// What decides the order of this component among others.
    pub fn rank(&self) -> (r: (u8, u8, Vec<u8>, Vec<u8>))
        ensures
            part_rank(self@) == (r.0 as int, r.1 as int, r.2@, r.3@),
    {
        match self {
            Component::Prefix(prefix) => match prefix {
                Prefix::Verbatim(name) => (0, 0, copy_bytes(name), Vec::new()),
                Prefix::VerbatimUnc(server, share) => (0, 1, copy_bytes(server), copy_bytes(share)),
                Prefix::VerbatimDisk(letter) => (0, 2, vec![*letter], Vec::new()),
                Prefix::DeviceNs(name) => (0, 3, copy_bytes(name), Vec::new()),
                Prefix::Unc(server, share) => (0, 4, copy_bytes(server), copy_bytes(share)),
                Prefix::Disk(letter) => (0, 5, vec![*letter], Vec::new()),
            },
            Component::RootDir => (1, 0, Vec::new(), Vec::new()),
            Component::CurDir => (2, 0, Vec::new(), Vec::new()),
            Component::ParentDir => (3, 0, Vec::new(), Vec::new()),
            Component::Normal(name) => (4, 0, copy_bytes(name), Vec::new()),
        }
    }

    /// Whether this component comes before `other`.
    pub fn before(&self, other: &Component) -> (r: bool)
        ensures
            r == part_less(self@, other@),
    {
        let a = self.rank();
        let b = other.rank();
        if a.0 != b.0 {
            a.0 < b.0
        } else if a.1 != b.1 {
            a.1 < b.1
        } else if !text::same_units(a.2.as_slice(), b.2.as_slice()) {
            order::bytes_before(a.2.as_slice(), b.2.as_slice())
        } else {
            order::bytes_before(a.3.as_slice(), b.3.as_slice())
        }
    }
}

impl PathBuf {
    /// Whether this path comes before `other`, component by component.
    pub fn before(&self, other: &PathBuf) -> (r: bool)
        ensures
            r == path_less(self@.parts, other@.parts),
    {
        let a = &self.parts;
        let b = &other.parts;
        let ghost x = self@.parts;
        let ghost y = other@.parts;
        let mut i: usize = 0;
        while i < a.len() && i < b.len() && a[i].same(&b[i])
            invariant
                i <= a@.len(),
                i <= b@.len(),
                x == a.deep_view(),
                y == b.deep_view(),
                forall|j: int| 0 <= j < i ==> x[j] == y[j],
            decreases a@.len() - i,
        {
            i += 1;
        }
        proof {
            assert(x.take(i as int) =~= y.take(i as int));
            order::lemma_lex_skip(x, y, i as int, part_order());
        }
        i < b.len() && (i == a.len() || a[i].before(&b[i]))
    }
}

// ---------------------------------------------------------------------
// Spelling a path from its components.
// ---------------------------------------------------------------------

/// How a share is spelled after its server.
pub open spec fn share_text(share: Seq<u8>) -> Seq<u8> {
    if share.len() == 0 {
        seq![]
    } else {
        seq![92u8] + share
    }
}

/// How a prefix is usually spelled.
pub open spec fn prefix_text(prefix: PrefixPart) -> Seq<u8> {
    match prefix {
        PrefixPart::Verbatim(name) => seq![92u8, 92, 63, 92] + name,
        PrefixPart::VerbatimUnc(server, share) => seq![92u8, 92, 63, 92, 85, 78, 67, 92] + server
            + share_text(share),
        PrefixPart::VerbatimDisk(letter) => seq![92u8, 92, 63, 92, letter, 58],
        PrefixPart::DeviceNs(name) => seq![92u8, 92, 46, 92] + name,
        PrefixPart::Unc(server, share) => seq![92u8, 92] + server + share_text(share),
        PrefixPart::Disk(letter) => seq![letter, 58],
    }
}

/// How a component is spelled, where `sep` separates names.
pub open spec fn part_text(sep: u8, part: Part) -> Seq<u8> {
    match part {
        Part::Prefix(prefix) => prefix_text(prefix),
        Part::Root => seq![sep],
        Part::Cur => seq![46],
        Part::Parent => seq![46, 46],
        Part::Name(name) => name,
    }
}

/// Whether a separator stands between the components `front` and `part`:
/// not next to the root, and not after a drive letter alone.
pub open spec fn gap(front: Seq<Part>, part: Part) -> bool {
    &&& front.len() > 0
    &&& part !is Root
    &&& front.last() !is Root
    &&& !(front.last() matches Part::Prefix(PrefixPart::Disk(_)))
}

/// How the components `parts` are spelled as a path.
pub open spec fn render(sep: u8, parts: Seq<Part>) -> Seq<u8>
    decreases parts.len(),
{
    if parts.len() == 0 {
        seq![]
    } else {
        let front = parts.drop_last();
        render(sep, front) + (if gap(front, parts.last()) {
            seq![sep]
        } else {
            seq![]
        }) + part_text(sep, parts.last())
    }
}

/// The path made of `parts`.
pub open spec fn built(platform: Platform, parts: Seq<Part>) -> PathView {
    PathView { text: render(platform.separator_spec(), parts), parts }
}

/// Add `more` to the end of `text`.
pub fn push_bytes(text: &mut Vec<u8>, more: &[u8])
    ensures
        final(text)@ == old(text)@ + more@,
{
    let mut i: usize = 0;
    while i < more.len()
        invariant
            i <= more@.len(),
            text@ == old(text)@ + more@.take(i as int),
        decreases more@.len() - i,
    {
        assert(more@.take(i as int).push(more@[i as int]) =~= more@.take(i + 1));
        text.push(more[i]);
        i += 1;
    }
    assert(more@.take(more@.len() as int) =~= more@);
}

/// Add a share after its server.
fn push_share(text: &mut Vec<u8>, share: &Vec<u8>)
    ensures
        final(text)@ == old(text)@ + share_text(share@),
{
    if share.len() > 0 {
        text.push(92);
        push_bytes(text, share.as_slice());
    }
    assert(text@ =~= old(text)@ + share_text(share@));
}

impl Component {
    /// How this component is spelled.
    pub fn spelled(&self, sep: u8) -> (r: Vec<u8>)
        ensures
            r@ == part_text(sep, self@),
    {
        let mut out: Vec<u8> = Vec::new();
        match self {
            Component::Prefix(prefix) => match prefix {
                Prefix::Verbatim(name) => {
                    out = vec![92, 92, 63, 92];
                    push_bytes(&mut out, name.as_slice());
                },
                Prefix::VerbatimUnc(server, share) => {
                    out = vec![92, 92, 63, 92, 85, 78, 67, 92];
                    push_bytes(&mut out, server.as_slice());
                    push_share(&mut out, share);
                },
                Prefix::VerbatimDisk(letter) => {
                    out = vec![92, 92, 63, 92, *letter, 58];
                },
                Prefix::DeviceNs(name) => {
                    out = vec![92, 92, 46, 92];
                    push_bytes(&mut out, name.as_slice());
                },
                Prefix::Unc(server, share) => {
                    out = vec![92, 92];
                    push_bytes(&mut out, server.as_slice());
                    push_share(&mut out, share);
                },
                Prefix::Disk(letter) => {
                    out = vec![*letter, 58];
                },
            },
            Component::RootDir => {
                out.push(sep);
            },
            Component::CurDir => {
                out.push(46);
            },
            Component::ParentDir => {
                out.push(46);
                out.push(46);
            },
            Component::Normal(name) => {
                out = copy_bytes(name);
            },
        }
        assert(out@ =~= part_text(sep, self@));
        out
    }
}

/// How the components `parts` are spelled as a path.
pub fn spell(sep: u8, parts: &Vec<Component>) -> (r: Vec<u8>)
    ensures
        r@ == render(sep, parts.deep_view()),
{
    let ghost all = parts.deep_view();
    let mut out: Vec<u8> = Vec::new();
    let mut i: usize = 0;
    assert(all.take(0) =~= Seq::<Part>::empty());
    while i < parts.len()
        invariant
            i <= parts@.len(),
            all == parts.deep_view(),
            out@ == render(sep, all.take(i as int)),
        decreases parts@.len() - i,
    {
        let ghost next = all.take(i + 1);
        assert(next.drop_last() =~= all.take(i as int));
        assert(next.last() == parts@[i as int]@);
        let close: bool = match &parts[i] {
            Component::RootDir => true,
            _ => i == 0 || match &parts[i - 1] {
                Component::RootDir => true,
                Component::Prefix(Prefix::Disk(_)) => true,
                _ => false,
            },
        };
        assert(i > 0 ==> all.take(i as int).last() == parts@[i - 1]@);
        assert(close == !gap(all.take(i as int), next.last()));
        if !close {
            out.push(sep);
        }
        let more = parts[i].spelled(sep);
        push_bytes(&mut out, more.as_slice());
        assert(out@ =~= render(sep, next));
        i += 1;
    }
    assert(all.take(all.len() as int) =~= all);
    out
}

impl PathBuf {
    /// The path made of `parts`.
    pub fn build(platform: Platform, parts: Vec<Component>) -> (r: PathBuf)
        ensures
            r@ == built(platform, parts.deep_view()),
    {
        let text = spell(platform.separator(), &parts);
        PathBuf { text, parts }
    }
}

/// How the prefix of `path` is spelled in it; as usual where its spelling is
/// too short to hold one.
pub open spec fn prefix_as_spelled(path: PathView, prefix: PrefixPart) -> Seq<u8> {
    let n = prefix_text(prefix).len();
    if n <= path.text.len() {
        path.text.take(n as int)
    } else {
        prefix_text(prefix)
    }
}

/// The path made of `parts`, with a prefix spelled as it is in `path`.
pub open spec fn respelled(platform: Platform, path: PathView, parts: Seq<Part>) -> PathView {
    let usual = render(platform.separator_spec(), parts);
    PathView {
        text: if parts.len() > 0 && parts[0] is Prefix {
            let prefix = parts[0]->Prefix_0;
            prefix_as_spelled(path, prefix) + usual.skip(prefix_text(prefix).len() as int)
        } else {
            usual
        },
        parts,
    }
}

/// A spelling starts with that of the first component.
proof fn lemma_render_front(sep: u8, parts: Seq<Part>)
    requires
        parts.len() > 0,
    ensures
        part_text(sep, parts[0]).len() <= render(sep, parts).len(),
    decreases parts.len(),
{
    if parts.len() > 1 {
        lemma_render_front(sep, parts.drop_last());
        assert(parts.drop_last()[0] == parts[0]);
    } else {
        assert(parts.last() == parts[0]);
    }
}

/// Spelling a path anew twice is spelling it anew once.
pub proof fn lemma_respelled_again(platform: Platform, path: PathView, parts: Seq<Part>)
    ensures
        respelled(platform, respelled(platform, path, parts), parts) == respelled(
            platform,
            path,
            parts,
        ),
{
    if parts.len() > 0 && parts[0] is Prefix {
        let prefix = parts[0]->Prefix_0;
        let n = prefix_text(prefix).len();
        lemma_render_front(platform.separator_spec(), parts);
        let once = respelled(platform, path, parts);
        assert(prefix_as_spelled(path, prefix).len() == n);
        assert(once.text.take(n as int) =~= prefix_as_spelled(path, prefix));
    }
}

/// The prefix of a path is spelled anew as it was, whatever follows it.
pub proof fn lemma_respelled_lead(path: PathView, parts: Seq<Part>, more: Seq<Part>)
    ensures
        parts.len() > 0 && more.len() > 0 && parts[0] == more[0] ==> respelled(
            Platform::Windows,
            respelled(Platform::Windows, path, parts),
            more,
        ) == respelled(Platform::Windows, path, more),
        more.len() == 0 || more[0] !is Prefix ==> respelled(
            Platform::Windows,
            respelled(Platform::Windows, path, parts),
            more,
        ) == respelled(Platform::Windows, path, more),
        parts.len() > 0 && parts[0] is Prefix ==> prefix_as_spelled(
            respelled(Platform::Windows, path, parts),
            parts[0]->Prefix_0,
        ) == prefix_as_spelled(path, parts[0]->Prefix_0),
{
    if parts.len() > 0 && parts[0] is Prefix {
        let prefix = parts[0]->Prefix_0;
        let n = prefix_text(prefix).len();
        lemma_render_front(92, parts);
        let once = respelled(Platform::Windows, path, parts);
        assert(prefix_as_spelled(path, prefix).len() == n);
        assert(once.text.take(n as int) =~= prefix_as_spelled(path, prefix));
    }
}

/// A path with one more component is spelled as it was, and then that one.
pub proof fn lemma_respelled_push(path: PathView, parts: Seq<Part>, part: Part)
    requires
        part !is Prefix,
    ensures
        respelled(Platform::Windows, path, parts.push(part)).text == respelled(
            Platform::Windows,
            path,
            parts,
        ).text + (if gap(parts, part) {
            seq![92u8]
        } else {
            seq![]
        }) + part_text(92, part),
{
    let all = parts.push(part);
    assert(all.drop_last() =~= parts);
    let usual = render(92, parts);
    let more = (if gap(parts, part) {
        seq![92u8]
    } else {
        seq![]
    }) + part_text(92, part);
    assert(render(92, all) =~= usual + more);
    if parts.len() > 0 && parts[0] is Prefix {
        assert(all[0] == parts[0]);
        lemma_render_front(92, parts);
        let n = prefix_text(parts[0]->Prefix_0).len() as int;
        assert((usual + more).skip(n) =~= usual.skip(n) + more);
    } else if parts.len() > 0 {
        assert(all[0] == parts[0]);
    } else {
        assert(all[0] == part);
        assert(usual =~= Seq::<u8>::empty());
    }
    assert(respelled(Platform::Windows, path, all).text =~= respelled(
        Platform::Windows,
        path,
        parts,
    ).text + (if gap(parts, part) {
        seq![92u8]
    } else {
        seq![]
    }) + part_text(92, part));
}

/// A path is spelled with its last component at the end.
pub proof fn lemma_respelled_last(path: PathView, parts: Seq<Part>)
    requires
        parts.len() > 0,
        parts.last() !is Prefix,
        part_text(92, parts.last()).len() > 0,
    ensures
        respelled(Platform::Windows, path, parts).text.len() > 0,
        respelled(Platform::Windows, path, parts).text.last() == part_text(
            92,
            parts.last(),
        ).last(),
{
    lemma_respelled_push(path, parts.drop_last(), parts.last());
    assert(parts.drop_last().push(parts.last()) =~= parts);
}

impl PathBuf {
    /// How the prefix `prefix` is spelled in this path; as usual where its
    /// spelling is too short to hold one.
    pub fn spelled_prefix(&self, prefix: &Prefix) -> (r: Vec<u8>)
        ensures
            r@ == prefix_as_spelled(self@, prefix@),
            r@.len() == prefix_text(prefix@).len(),
    {
        let usual = Component::Prefix(prefix.clone()).spelled(92);
        let n: usize = usual.len();
        assert(usual@ == prefix_text(prefix@));
        if n <= self.text.len() {
            let lead = vstd::slice::slice_to_vec(
                vstd::slice::slice_subrange(self.text.as_slice(), 0, n),
            );
            assert(lead@ =~= self@.text.take(n as int));
            lead
        } else {
            usual
        }
    }

    /// The path made of `parts`, with a prefix spelled as it is in this one.
    pub fn respell(&self, platform: Platform, parts: Vec<Component>) -> (r: PathBuf)
        ensures
            r@ == respelled(platform, self@, parts.deep_view()),
    {
        let sep: u8 = platform.separator();
        let text = spell(sep, &parts);
        let ghost view = parts.deep_view();
        assert(view.len() == parts@.len());
        if parts.len() > 0 {
            assert(view[0] == parts@[0]@);
            if let Component::Prefix(prefix) = &parts[0] {
                let mut lead = self.spelled_prefix(prefix);
                proof {
                    lemma_render_front(sep, view);
                }
                let n: usize = lead.len();
                let rest = vstd::slice::slice_subrange(text.as_slice(), n, text.len());
                assert(rest@ =~= text@.skip(n as int));
                push_bytes(&mut lead, rest);
                return PathBuf { text: lead, parts };
            }
        }
        PathBuf { text, parts }
    }
}

// ---------------------------------------------------------------------
// Spelling and reading a Unix path agree.
// ---------------------------------------------------------------------

/// A name a directory entry can have on Unix.
pub open spec fn real_name(name: Seq<u8>) -> bool {
    name.len() > 0 && !name.contains(47) && name != seq![46u8] && name != seq![46u8, 46u8]
}

/// The components of some Unix path: the root or a dot only in front, and
/// real names.
pub open spec fn unix_shaped(parts: Seq<Part>) -> bool {
    forall|i: int|
        0 <= i < parts.len() ==> match #[trigger] parts[i] {
            Part::Prefix(_) => false,
            Part::Root => i == 0,
            Part::Cur => i == 0,
            Part::Parent => true,
            Part::Name(name) => real_name(name),
        }
}

proof fn lemma_piece_parts_shape(all: Seq<Seq<u8>>, rooted: bool)
    requires
        forall|i: int| 0 <= i < all.len() ==> !(#[trigger] all[i]).contains(47),
    ensures
        unix_shaped(piece_parts(all, rooted)),
        forall|i: int|
            0 <= i < piece_parts(all, rooted).len() ==> (#[trigger] piece_parts(all, rooted)[i])
                !is Root,
        rooted ==> forall|i: int|
            0 <= i < piece_parts(all, rooted).len() ==> (#[trigger] piece_parts(all, rooted)[i])
                !is Cur,
    decreases all.len(),
{
    if all.len() > 0 {
        let front = all.drop_last();
        lemma_piece_parts_shape(front, rooted);
        assert(!all.last().contains(47));
        if all.len() == 1 {
            assert(piece_parts(front, rooted).len() == 0);
        }
    }
}

/// Reading any spelling gives the components of a Unix path.
pub proof fn lemma_unix_parts_shape(text: Seq<u8>)
    ensures
        unix_shaped(unix_parts(text)),
{
    text::lemma_pieces_clean(text, 47u8);
    let all = text::pieces(text, 47u8);
    lemma_piece_parts_shape(all, rooted(text));
    let tail = piece_parts(all, rooted(text));
    if rooted(text) {
        let parts = unix_parts(text);
        assert forall|i: int| 0 <= i < parts.len() implies match #[trigger] parts[i] {
            Part::Prefix(_) => false,
            Part::Root => i == 0,
            Part::Cur => i == 0,
            Part::Parent => true,
            Part::Name(name) => real_name(name),
        } by {
            if i > 0 {
                assert(parts[i] == tail[i - 1]);
            }
        }
    } else {
        assert(unix_parts(text) =~= tail);
    }
}

/// A piece that is a component of its own after another component.
spec fn stands_alone(t: Seq<u8>, part: Part) -> bool {
    t.len() > 0 && !t.contains(47) && piece_part(t, false) == seq![part]
}

proof fn lemma_read_single(part: Part)
    requires
        unix_shaped(seq![part]),
    ensures
        unix_parts(part_text(47, part)) == seq![part],
        part_text(47, part).len() > 0,
        part !is Root && part !is Cur ==> stands_alone(part_text(47, part), part),
{
    let t = part_text(47, part);
    let none = Seq::<u8>::empty();
    assert(seq![part][0] == part);
    if part is Root {
        text::lemma_pieces_join(none, none, 47u8);
        text::lemma_pieces_step(none, none, 47u8);
        assert(t =~= none + seq![47u8] + none);
        let all = seq![none] + seq![none];
        assert(all.drop_last() =~= seq![none]);
        assert(seq![none].drop_last() =~= Seq::<Seq<u8>>::empty());
        assert(piece_parts(Seq::<Seq<u8>>::empty(), true) =~= Seq::<Part>::empty());
        assert(piece_parts(seq![none], true) =~= Seq::<Part>::empty());
        assert(piece_parts(all, true) =~= Seq::<Part>::empty());
        assert(unix_parts(t) =~= seq![part]);
    } else {
        assert(!t.contains(47u8));
        text::lemma_pieces_step(t, none, 47u8);
        assert(!rooted(t)) by {
            if rooted(t) {
                assert(t.contains(t[0]));
            }
        }
        let all = seq![t];
        assert(all.drop_last() =~= Seq::<Seq<u8>>::empty());
        assert(piece_parts(Seq::<Seq<u8>>::empty(), false) =~= Seq::<Part>::empty());
        if part is Parent {
            assert(t[1] == 46u8);
            assert(t != seq![46u8]);
        }
        assert(piece_part(t, true) =~= seq![part]);
        assert(piece_parts(all, false) =~= seq![part]);
        assert(unix_parts(t) =~= seq![part]);
    }
}

proof fn lemma_read_after_root(t: Seq<u8>, part: Part)
    requires
        stands_alone(t, part),
    ensures
        unix_parts(seq![47u8] + t) == seq![Part::Root, part],
{
    let none = Seq::<u8>::empty();
    assert(seq![47u8] + t =~= none + seq![47u8] + t);
    text::lemma_pieces_join(none, t, 47u8);
    text::lemma_pieces_step(none, none, 47u8);
    text::lemma_pieces_step(t, none, 47u8);
    let all = seq![none] + seq![t];
    assert(all.drop_last() =~= seq![none]);
    assert(seq![none].drop_last() =~= Seq::<Seq<u8>>::empty());
    assert(piece_parts(Seq::<Seq<u8>>::empty(), true) =~= Seq::<Part>::empty());
    assert(piece_parts(seq![none], true) =~= Seq::<Part>::empty());
    assert(piece_parts(all, true) =~= seq![part]);
    assert(unix_parts(seq![47u8] + t) =~= seq![Part::Root, part]);
}

proof fn lemma_read_appended(a: Seq<u8>, t: Seq<u8>, part: Part)
    requires
        a.len() > 0,
        stands_alone(t, part),
    ensures
        unix_parts(a + seq![47u8] + t) == unix_parts(a).push(part),
{
    let whole = a + seq![47u8] + t;
    text::lemma_pieces_join(a, t, 47u8);
    text::lemma_pieces_clean(a, 47u8);
    text::lemma_pieces_step(t, Seq::<u8>::empty(), 47u8);
    let all = text::pieces(a, 47u8) + seq![t];
    assert(all.drop_last() =~= text::pieces(a, 47u8));
    assert(whole[0] == a[0]);
    assert(unix_parts(whole) =~= unix_parts(a).push(part));
}

/// A real name is read as itself.
pub proof fn lemma_read_name(name: Seq<u8>)
    requires
        real_name(name),
    ensures
        unix_parts(name) == seq![Part::Name(name)],
{
    assert(unix_shaped(seq![Part::Name(name)]));
    lemma_read_single(Part::Name(name));
}

/// A slash is read as the root.
pub proof fn lemma_read_slash()
    ensures
        unix_parts(seq![47u8]) == seq![Part::Root],
{
    assert(unix_shaped(seq![Part::Root]));
    lemma_read_single(Part::Root);
}

/// A path of Unix components is read back as those components.
pub proof fn lemma_unix_round_trip(parts: Seq<Part>)
    requires
        unix_shaped(parts),
    ensures
        unix_parts(render(47, parts)) == parts,
        parts.len() > 0 ==> render(47, parts).len() > 0,
    decreases parts.len(),
{
    if parts.len() == 0 {
        let text = Seq::<u8>::empty();
        text::lemma_pieces_step(text, text, 47u8);
        assert(seq![text].drop_last() =~= Seq::<Seq<u8>>::empty());
        assert(piece_parts(Seq::<Seq<u8>>::empty(), false) =~= Seq::<Part>::empty());
        assert(piece_parts(seq![text], false) =~= Seq::<Part>::empty());
        assert(unix_parts(text) =~= parts);
    } else {
        let front = parts.drop_last();
        let part = parts.last();
        let a = render(47, front);
        let t = part_text(47, part);
        assert forall|i: int| 0 <= i < front.len() implies match #[trigger] front[i] {
            Part::Prefix(_) => false,
            Part::Root => i == 0,
            Part::Cur => i == 0,
            Part::Parent => true,
            Part::Name(name) => real_name(name),
        } by {
            assert(front[i] == parts[i]);
        }
        lemma_unix_round_trip(front);
        assert(parts[parts.len() - 1] == part);
        assert(unix_shaped(seq![part]));
        lemma_read_single(part);
        if front.len() == 0 {
            assert(a =~= Seq::<u8>::empty());
            assert(render(47, parts) =~= t);
            assert(parts =~= seq![part]);
        } else {
            assert(front[front.len() - 1] == front.last());
            if front.last() is Root {
                assert(front =~= seq![Part::Root]);
                assert(front.drop_last() =~= Seq::<Part>::empty());
                assert(render(47, front.drop_last()) =~= Seq::<u8>::empty());
                assert(a =~= seq![47u8]);
                assert(render(47, parts) =~= seq![47u8] + t);
                lemma_read_after_root(t, part);
                assert(parts =~= seq![Part::Root, part]);
            } else {
                assert(render(47, parts) =~= a + seq![47u8] + t);
                lemma_read_appended(a, t, part);
                assert(parts =~= front.push(part));
            }
        }
    }
}

// ---------------------------------------------------------------------
// Names, parents and joining.
// ---------------------------------------------------------------------

/// The name a path with these components ends in, if it ends in one.
pub open spec fn last_name(parts: Seq<Part>) -> Option<Seq<u8>> {
    if parts.len() > 0 {
        match parts.last() {
            Part::Name(name) => Some(name),
            _ => None,
        }
    } else {
        None
    }
}

/// Whether a path with these components has a parent: it ends in something
/// other than a root or a prefix.
pub open spec fn has_parent(parts: Seq<Part>) -> bool {
    parts.len() > 0 && parts.last() !is Root && parts.last() !is Prefix
}

/// Whether `byte` separates names.
pub open spec fn is_separator(platform: Platform, byte: u8) -> bool {
    byte == 47 || (platform is Windows && byte == 92)
}

/// Whether joining onto `base` puts a separator between.
pub open spec fn joins_with_gap(platform: Platform, base: PathView) -> bool {
    &&& base.text.len() > 0
    &&& !is_separator(platform, base.text.last())
    &&& !(base.parts.len() == 1 && base.parts[0] matches Part::Prefix(PrefixPart::Disk(_)))
}

/// Nothing is read before what follows `base`, so that a dot there is a
/// component.
pub open spec fn leads(base: Seq<Part>) -> bool {
    base.len() == 0 || (base.len() == 1 && base[0] matches Part::Prefix(PrefixPart::Disk(_)))
}

/// The components `base`, then those of a relative path that follows them.
pub open spec fn appended(base: Seq<Part>, rest: Seq<Part>) -> Seq<Part> {
    base + (if rest.len() > 0 && rest[0] is Cur && !leads(base) {
        rest.skip(1)
    } else {
        rest
    })
}

/// The path of what `rest` names, seen from `base`: below it, in its
/// spelling, unless `rest` names a place of its own. On Windows the spelling
/// of `rest` is read again; see [`wide::pushed`].
pub open spec fn joined(platform: Platform, base: PathView, rest: Seq<Part>) -> PathView {
    if rest.len() > 0 && rest[0] is Prefix {
        built(platform, rest)
    } else if platform is Windows {
        wide::pushed(base, render(92, rest))
    } else if rest.len() > 0 && rest[0] is Root {
        built(platform, rest)
    } else {
        PathView {
            text: base.text + (if joins_with_gap(platform, base) {
                seq![platform.separator_spec()]
            } else {
                seq![]
            }) + render(platform.separator_spec(), rest),
            parts: appended(base.parts, rest),
        }
    }
}

/// The components `base`, then those of a relative path that follows them.
pub fn append_parts(base: &[Component], rest: &[Component]) -> (r: Vec<Component>)
    ensures
        r.deep_view() == appended(base.deep_view(), rest.deep_view()),
{
    let ghost a = base.deep_view();
    let ghost b = rest.deep_view();
    assert(a.len() == base.len() && b.len() == rest.len());
    let lead: bool = base.len() == 0 || (base.len() == 1 && match &base[0] {
        Component::Prefix(Prefix::Disk(_)) => true,
        _ => false,
    });
    assert(base.len() > 0 ==> a[0] == base@[0]@);
    let dot: bool = rest.len() > 0 && match &rest[0] {
        Component::CurDir => true,
        _ => false,
    };
    assert(rest.len() > 0 ==> b[0] == rest@[0]@);
    let mut parts = copy_parts(base);
    let mut tail = if dot && !lead {
        let cut = vstd::slice::slice_subrange(rest, 1, rest.len());
        assert(cut.deep_view() =~= b.skip(1));
        copy_parts(cut)
    } else {
        copy_parts(rest)
    };
    let ghost more = tail.deep_view();
    parts.append(&mut tail);
    assert(parts.deep_view() =~= a + more);
    parts
}

impl PathBuf {
    /// The last name, if the path ends in one.
    pub fn file_name(&self) -> (r: Option<&Vec<u8>>)
        ensures
            match r {
                Some(name) => last_name(self@.parts) == Some(name@),
                None => last_name(self@.parts) is None,
            },
    {
        let n: usize = self.parts.len();
        if n == 0 {
            return None;
        }
        match &self.parts[n - 1] {
            Component::Normal(name) => Some(name),
            _ => None,
        }
    }

    /// Whether there is a directory this path is in.
    pub fn has_parent(&self) -> (r: bool)
        ensures
            r == has_parent(self@.parts),
    {
        let n: usize = self.parts.len();
        if n == 0 {
            return false;
        }
        match &self.parts[n - 1] {
            Component::RootDir | Component::Prefix(_) => false,
            Component::CurDir | Component::ParentDir | Component::Normal(_) => true,
        }
    }

    /// The directory this path is in, in the usual spelling.
    pub fn parent(&self, platform: Platform) -> (r: Option<PathBuf>)
        ensures
            match r {
                Some(parent) => has_parent(self@.parts) && parent@ == built(
                    platform,
                    self@.parts.drop_last(),
                ),
                None => !has_parent(self@.parts),
            },
    {
        if !self.has_parent() {
            return None;
        }
        let mut parts = copy_parts(self.parts.as_slice());
        parts.pop();
        assert(parts.deep_view() =~= self@.parts.drop_last());
        Some(PathBuf::build(platform, parts))
    }

    /// Whether joining onto this path puts a separator between.
    pub fn wants_gap(&self, platform: Platform) -> (r: bool)
        ensures
            r == joins_with_gap(platform, self@),
    {
        let n: usize = self.text.len();
        let drive: bool = self.parts.len() == 1 && match &self.parts[0] {
            Component::Prefix(Prefix::Disk(_)) => true,
            _ => false,
        };
        assert(self@.parts.len() == 1 ==> self@.parts[0] == self.parts@[0]@);
        let windows: bool = match platform {
            Platform::Windows => true,
            _ => false,
        };
        n > 0 && self.text[n - 1] != 47 && !(windows && self.text[n - 1] == 92) && !drive
    }

    /// What `rest` names, seen from this path.
    pub fn join(&self, platform: Platform, rest: &Vec<Component>) -> (r: PathBuf)
        ensures
            r@ == joined(platform, self@, rest.deep_view()),
    {
        assert(rest.deep_view().len() == rest.len());
        assert(rest.len() > 0 ==> rest.deep_view()[0] == rest@[0]@);
        let (prefixed, absolute): (bool, bool) = if rest.len() == 0 {
            (false, false)
        } else {
            match &rest[0] {
                Component::Prefix(_) => (true, false),
                Component::RootDir => (false, true),
                _ => (false, false),
            }
        };
        if prefixed {
            return PathBuf::build(platform, copy_parts(rest.as_slice()));
        }
        let more = spell(platform.separator(), rest);
        if let Platform::Windows = platform {
            return wide::push(self, more.as_slice());
        }
        if absolute {
            return PathBuf { text: more, parts: copy_parts(rest.as_slice()) };
        }
        let mut text = copy_bytes(&self.text);
        if self.wants_gap(platform) {
            text.push(platform.separator());
        }
        push_bytes(&mut text, more.as_slice());
        assert(text@ =~= joined(platform, self@, rest.deep_view()).text);
        PathBuf { text, parts: append_parts(self.parts.as_slice(), rest.as_slice()) }
    }

    /// The entry called `name` below this path.
    pub fn join_name(&self, platform: Platform, name: &[u8]) -> (r: PathBuf)
        ensures
            r@ == joined(platform, self@, seq![Part::Name(name@)]),
    {
        let rest = vec![Component::Normal(vstd::slice::slice_to_vec(name))];
        assert(rest.deep_view() =~= seq![Part::Name(name@)]);
        self.join(platform, &rest)
    }

    /// The path as text, for people to read.
    pub fn display(&self, platform: Platform) -> (r: String)
        ensures
            r@ == displayed(platform, self@.text),
    {
        display_bytes(platform, self.text.as_slice())
    }
}

/// Only names that a directory entry can have on Unix.
pub open spec fn real_names(parts: Seq<Part>) -> bool {
    forall|i: int|
        0 <= i < parts.len() ==> (#[trigger] parts[i] matches Part::Name(name) && real_name(name))
}

/// A path that is read from its spelling has the components of it.
pub proof fn lemma_unix_wf(platform: Platform, text: Seq<u8>)
    ensures
        unix_path(text).wf(platform),
{
}

/// A path that is built of components has those of its spelling, on Unix
/// where they are components of some path.
pub proof fn lemma_built_wf(platform: Platform, parts: Seq<Part>)
    requires
        platform is Windows || unix_shaped(parts),
    ensures
        built(platform, parts).wf(platform),
{
    if !(platform is Windows) {
        lemma_unix_round_trip(parts);
    }
}

/// The parent of a path has the components of its spelling.
pub proof fn lemma_parent_wf(platform: Platform, path: PathView)
    requires
        path.wf(platform),
        has_parent(path.parts),
    ensures
        built(platform, path.parts.drop_last()).wf(platform),
{
    if !(platform is Windows) {
        lemma_unix_parts_shape(path.text);
        let front = path.parts.drop_last();
        assert forall|i: int| 0 <= i < front.len() implies match #[trigger] front[i] {
            Part::Prefix(_) => false,
            Part::Root => i == 0,
            Part::Cur => i == 0,
            Part::Parent => true,
            Part::Name(name) => real_name(name),
        } by {
            assert(front[i] == path.parts[i]);
        }
        lemma_unix_round_trip(front);
    }
}

/// What real names lead to below a path has the components of its spelling.
pub proof fn lemma_joined_wf(platform: Platform, base: PathView, rest: Seq<Part>)
    requires
        base.wf(platform),
        platform is Windows || real_names(rest),
    ensures
        joined(platform, base, rest).wf(platform),
{
    if !(platform is Windows) {
        lemma_unix_parts_shape(base.text);
        if base.parts.len() == 1 {
            assert(base.parts[0] !is Prefix);
        }
        lemma_read_below(base.text, rest);
    }
}

/// How a Unix path spelled `text` is spelled before names that are joined
/// onto it.
spec fn before_names(text: Seq<u8>) -> Seq<u8> {
    if text.len() > 0 && text.last() != 47 {
        text + seq![47u8]
    } else {
        text
    }
}

proof fn lemma_read_below(text: Seq<u8>, rest: Seq<Part>)
    requires
        real_names(rest),
    ensures
        unix_parts(before_names(text) + render(47, rest)) == unix_parts(text) + rest,
        rest.len() > 0 ==> render(47, rest).len() > 0,
    decreases rest.len(),
{
    let lead = before_names(text);
    if rest.len() == 0 {
        assert(lead + render(47, rest) =~= lead);
        assert(unix_parts(text) + rest =~= unix_parts(text));
        if lead != text {
            lemma_read_trailing(text);
        }
    } else {
        let front = rest.drop_last();
        let part = rest.last();
        let t = part_text(47, part);
        assert(rest[rest.len() - 1] == part);
        assert(real_names(front)) by {
            assert forall|i: int| 0 <= i < front.len() implies (
            #[trigger] front[i] matches Part::Name(name) && real_name(name)) by {
                assert(front[i] == rest[i]);
            }
        }
        lemma_read_below(text, front);
        assert(unix_shaped(seq![part]));
        lemma_read_single(part);
        assert(unix_parts(text) + rest =~= (unix_parts(text) + front).push(part));
        if front.len() > 0 {
            assert(front[front.len() - 1] == front.last());
            assert(lead + render(47, rest) =~= (lead + render(47, front)) + seq![47u8] + t);
            lemma_read_appended(lead + render(47, front), t, part);
        } else {
            assert(render(47, front) =~= Seq::<u8>::empty());
            assert(lead + render(47, rest) =~= lead + t);
            if text.len() == 0 {
                assert(lead + t =~= t);
                lemma_unix_round_trip(Seq::<Part>::empty());
                assert(text =~= render(47, Seq::<Part>::empty()));
                assert(unix_parts(text) + rest =~= seq![part]);
            } else if lead != text {
                lemma_read_appended(text, t, part);
            } else {
                let shorter = text.drop_last();
                assert(text =~= shorter + seq![47u8]);
                if shorter.len() == 0 {
                    lemma_read_after_root(t, part);
                    lemma_read_single(Part::Root);
                    assert(text =~= seq![47u8]);
                    assert(unix_parts(text) + rest =~= seq![Part::Root, part]);
                } else {
                    assert(lead + t =~= shorter + seq![47u8] + t);
                    lemma_read_appended(shorter, t, part);
                    lemma_read_trailing(shorter);
                }
            }
        }
    }
}

/// A slash at the end changes nothing.
proof fn lemma_read_trailing(a: Seq<u8>)
    requires
        a.len() > 0,
    ensures
        unix_parts(a + seq![47u8]) == unix_parts(a),
{
    let none = Seq::<u8>::empty();
    let whole = a + seq![47u8];
    assert(whole =~= a + seq![47u8] + none);
    text::lemma_pieces_join(a, none, 47u8);
    text::lemma_pieces_clean(a, 47u8);
    text::lemma_pieces_step(none, none, 47u8);
    let all = text::pieces(a, 47u8) + seq![none];
    assert(all.drop_last() =~= text::pieces(a, 47u8));
    assert(whole[0] == a[0]);
    assert(unix_parts(whole) =~= unix_parts(a));
}

// ---------------------------------------------------------------------
// The end of a path, as it is spelled.
// ---------------------------------------------------------------------

/// Whether a path with these components is spelled verbatim: then `/` is
/// part of a name, and a dot is a component.
pub open spec fn is_verbatim(parts: Seq<Part>) -> bool {
    parts.len() > 0 && match parts[0] {
        Part::Prefix(PrefixPart::Verbatim(_))
        | Part::Prefix(PrefixPart::VerbatimUnc(_, _))
        | Part::Prefix(PrefixPart::VerbatimDisk(_)) => true,
        _ => false,
    }
}

/// Whether `byte` separates names in a path that is verbatim or not.
pub open spec fn separates(platform: Platform, verbatim: bool, byte: u8) -> bool {
    if verbatim {
        byte == 92
    } else {
        is_separator(platform, byte)
    }
}

/// Where the last piece of `text` starts, after its last separator.
pub open spec fn piece_start(platform: Platform, verbatim: bool, text: Seq<u8>) -> nat
    decreases text.len(),
{
    if text.len() == 0 || separates(platform, verbatim, text.last()) {
        text.len()
    } else {
        piece_start(platform, verbatim, text.drop_last())
    }
}

/// The last piece of `text`.
pub open spec fn last_piece(platform: Platform, verbatim: bool, text: Seq<u8>) -> Seq<u8> {
    text.skip(piece_start(platform, verbatim, text) as int)
}

/// Whether a piece between separators is a component: an empty one never,
/// and a dot only in a verbatim path.
pub open spec fn counts(verbatim: bool, piece: Seq<u8>) -> bool {
    piece.len() > 0 && (verbatim || piece != seq![46u8])
}

/// `text` up to the end of its last component.
pub open spec fn ended(platform: Platform, verbatim: bool, text: Seq<u8>) -> Seq<u8>
    decreases text.len(),
{
    let start = piece_start(platform, verbatim, text);
    if start == 0 || start > text.len() || counts(verbatim, last_piece(platform, verbatim, text)) {
        text
    } else {
        ended(platform, verbatim, text.take(start - 1))
    }
}

/// Where the last `n` components of `text` start.
pub open spec fn tail_start(platform: Platform, verbatim: bool, text: Seq<u8>, n: nat) -> nat
    decreases text.len(),
{
    let start = piece_start(platform, verbatim, text);
    let left = if counts(verbatim, last_piece(platform, verbatim, text)) {
        n - 1
    } else {
        n as int
    };
    if start == 0 || start > text.len() || left <= 0 {
        start
    } else {
        tail_start(platform, verbatim, text.take(start - 1), left as nat)
    }
}

/// The last `n` components of `path`, as they are spelled in it.
pub open spec fn spelled_end(platform: Platform, path: PathView, n: nat) -> Seq<u8> {
    let verbatim = is_verbatim(path.parts);
    let text = ended(platform, verbatim, path.text);
    text.skip(tail_start(platform, verbatim, text, n) as int)
}

/// Where the last piece of the first `end` bytes of `text` starts.
fn find_piece(platform: Platform, verbatim: bool, text: &[u8], end: usize) -> (r: usize)
    requires
        end <= text@.len(),
    ensures
        r <= end,
        r == piece_start(platform, verbatim, text@.take(end as int)),
{
    let mut start: usize = end;
    assert(text@.len() == text.len());
    while start > 0 && !splits(platform, verbatim, text[start - 1])
        invariant
            start <= end,
            end <= text@.len(),
            text@.len() == text.len(),
            piece_start(platform, verbatim, text@.take(end as int)) == piece_start(
                platform,
                verbatim,
                text@.take(start as int),
            ),
        decreases start,
    {
        proof {
            let here = text@.take(start as int);
            assert(here.last() == text@[start - 1]);
            assert(here.drop_last() =~= text@.take(start - 1));
        }
        start = start - 1;
    }
    proof {
        let here = text@.take(start as int);
        if start > 0 {
            assert(here.last() == text@[start - 1]);
        }
    }
    start
}

/// Whether `byte` separates names in a path that is verbatim or not.
fn splits(platform: Platform, verbatim: bool, byte: u8) -> (r: bool)
    ensures
        r == separates(platform, verbatim, byte),
{
    if byte == 92 {
        if verbatim {
            return true;
        }
        match platform {
            Platform::Windows => true,
            _ => false,
        }
    } else {
        byte == 47 && !verbatim
    }
}

/// Whether the bytes of `text` from `start` to `end` are a component.
fn is_counted(verbatim: bool, text: &[u8], start: usize, end: usize) -> (r: bool)
    requires
        start <= end <= text@.len(),
    ensures
        r == counts(verbatim, text@.take(end as int).skip(start as int)),
{
    let ghost piece = text@.take(end as int).skip(start as int);
    assert(text@.len() == text.len());
    if start == end {
        return false;
    }
    let dot: bool = end - start == 1 && text[start] == 46;
    proof {
        assert(piece.len() == end - start);
        assert(piece[0] == text@[start as int]);
        if dot {
            assert(piece =~= seq![46u8]);
        }
    }
    verbatim || !dot
}

impl PathBuf {
    /// Whether the path is spelled verbatim.
    pub fn verbatim(&self) -> (r: bool)
        ensures
            r == is_verbatim(self@.parts),
    {
        if self.parts.len() == 0 {
            return false;
        }
        assert(self@.parts[0] == self.parts@[0]@);
        match &self.parts[0] {
            Component::Prefix(Prefix::Verbatim(_))
            | Component::Prefix(Prefix::VerbatimUnc(_, _))
            | Component::Prefix(Prefix::VerbatimDisk(_)) => true,
            _ => false,
        }
    }

    /// The last `n` components of the path, as they are spelled in it: what
    /// stands between them stays, and what stands after them goes.
    pub fn spelled_end(&self, platform: Platform, n: usize) -> (r: Vec<u8>)
        ensures
            r@ == spelled_end(platform, self@, n as nat),
    {
        let verbatim: bool = self.verbatim();
        let text = self.text.as_slice();
        let ghost whole = ended(platform, verbatim, text@);
        let mut end: usize = self.text.len();
        assert(text@.take(end as int) =~= text@);
        loop
            invariant_except_break
                end <= text@.len(),
                ended(platform, verbatim, text@.take(end as int)) == whole,
            ensures
                end <= text@.len(),
                whole == text@.take(end as int),
            decreases end,
        {
            let start: usize = find_piece(platform, verbatim, text, end);
            if start == 0 || is_counted(verbatim, text, start, end) {
                break;
            }
            assert(text@.take(end as int).take(start - 1) =~= text@.take(start - 1));
            end = start - 1;
        }
        let ghost at = tail_start(platform, verbatim, whole, n as nat);
        let mut from: usize = end;
        let mut left: usize = n;
        let mut start: usize = find_piece(platform, verbatim, text, from);
        loop
            invariant_except_break
                end <= text@.len(),
                start <= from <= end,
                start == piece_start(platform, verbatim, text@.take(from as int)),
                tail_start(platform, verbatim, text@.take(from as int), left as nat) == at,
            ensures
                start <= end <= text@.len(),
                start == at,
            decreases from,
        {
            if is_counted(verbatim, text, start, from) {
                if left <= 1 {
                    break;
                }
                left = left - 1;
            } else if left == 0 {
                break;
            }
            if start == 0 {
                break;
            }
            assert(text@.take(from as int).take(start - 1) =~= text@.take(start - 1));
            from = start - 1;
            start = find_piece(platform, verbatim, text, from);
        }
        let tail = vstd::slice::slice_subrange(text, start, end);
        assert(tail@ =~= spelled_end(platform, self@, n as nat));
        vstd::slice::slice_to_vec(tail)
    }
}

} // verus!
