//! Character and byte sequences: splitting, searching and classifying.

use vstd::prelude::*;

verus! {

/// Appending one character to a `String`: `String::push` of the standard
/// library adds the character at the end and changes nothing else.
pub assume_specification[ String::push ](s: &mut String, c: char)
    ensures
        final(s)@ == old(s)@.push(c),
;

// ---------------------------------------------------------------------
// Conversions between `str`, `String` and vectors of characters.
// ---------------------------------------------------------------------

/// The characters of `s`.
pub fn chars_of(s: &str) -> (r: Vec<char>)
    ensures
        r@ == s@,
{
    let mut out: Vec<char> = Vec::new();
    for c in it: s.chars()
        invariant
            it.seq() == s@,
            out@ == s@.take(it.index() as int),
    {
        proof {
            assert(s@.take(it.index() as int).push(c) =~= s@.take(it.index() + 1));
        }
        out.push(c);
    }
    assert(s@.take(s@.len() as int) =~= s@);
    out
}

/// The text made of `chars`.
pub fn string_of(chars: &[char]) -> (r: String)
    ensures
        r@ == chars@,
{
    let mut out = String::new();
    let mut i: usize = 0;
    while i < chars.len()
        invariant
            i <= chars@.len(),
            out@ == chars@.take(i as int),
        decreases chars@.len() - i,
    {
        assert(chars@.take(i as int).push(chars@[i as int]) =~= chars@.take(i + 1));
        out.push(chars[i]);
        i += 1;
    }
    assert(chars@.take(chars@.len() as int) =~= chars@);
    out
}

// ---------------------------------------------------------------------
// Splitting on one separator.
// ---------------------------------------------------------------------

/// What text is made of: characters, bytes or UTF-16 code units.
pub trait Unit: Copy + Sized {
    fn same(self, other: Self) -> (b: bool)
        ensures
            b == (self == other),
    ;
}

impl Unit for char {
    fn same(self, other: Self) -> (b: bool) {
        self == other
    }
}

impl Unit for u8 {
    fn same(self, other: Self) -> (b: bool) {
        self == other
    }
}

impl Unit for u16 {
    fn same(self, other: Self) -> (b: bool) {
        self == other
    }
}

/// Whether `a` and `b` hold the same units in the same order.
pub fn same_units<T: Unit>(a: &[T], b: &[T]) -> (r: bool)
    ensures
        r == (a@ == b@),
{
    if a.len() != b.len() {
        return false;
    }
    let mut i: usize = 0;
    while i < a.len()
        invariant
            i <= a@.len(),
            a@.len() == b@.len(),
            forall|j: int| 0 <= j < i ==> a@[j] == b@[j],
        decreases a@.len() - i,
    {
        if !a[i].same(b[i]) {
            return false;
        }
        i += 1;
    }
    assert(a@ =~= b@);
    true
}

/// Where `sep` first occurs in `s`; the length of `s` when it does not.
pub open spec fn first_of<T>(s: Seq<T>, sep: T) -> nat
    decreases s.len(),
{
    if s.len() == 0 || s[0] == sep {
        0
    } else {
        1 + first_of(s.drop_first(), sep)
    }
}

/// The pieces of `s` between occurrences of `sep`: one more than there are
/// separators, any of them possibly empty.
pub open spec fn pieces<T>(s: Seq<T>, sep: T) -> Seq<Seq<T>>
    decreases s.len(),
{
    let at = first_of(s, sep);
    if at >= s.len() {
        seq![s]
    } else {
        seq![s.take(at as int)] + pieces(s.skip(at as int + 1), sep)
    }
}

/// `first_of` is the first position that holds `sep`.
pub proof fn lemma_first_of<T>(s: Seq<T>, sep: T)
    ensures
        first_of(s, sep) <= s.len(),
        forall|j: int| 0 <= j < first_of(s, sep) ==> s[j] != sep,
        first_of(s, sep) < s.len() ==> s[first_of(s, sep) as int] == sep,
    decreases s.len(),
{
    if s.len() != 0 && s[0] != sep {
        let rest = s.drop_first();
        lemma_first_of(rest, sep);
        assert forall|j: int| 0 <= j < first_of(s, sep) implies s[j] != sep by {
            if j > 0 {
                assert(s[j] == rest[j - 1]);
            }
        }
    }
}

/// A stretch without `sep` in front moves the first occurrence along.
pub proof fn lemma_first_of_after<T>(a: Seq<T>, rest: Seq<T>, sep: T)
    requires
        !a.contains(sep),
    ensures
        first_of(a + rest, sep) == a.len() + first_of(rest, sep),
    decreases a.len(),
{
    if a.len() == 0 {
        assert(a + rest =~= rest);
    } else {
        let tail = a.drop_first();
        assert(a[0] != sep);
        assert(!tail.contains(sep)) by {
            if tail.contains(sep) {
                let i = choose|i: int| 0 <= i < tail.len() && tail[i] == sep;
                assert(a[i + 1] == sep);
            }
        }
        lemma_first_of_after(tail, rest, sep);
        assert((a + rest).drop_first() =~= tail + rest);
    }
}

/// The piece before the first separator, then the pieces after it.
pub proof fn lemma_pieces_step<T>(a: Seq<T>, rest: Seq<T>, sep: T)
    requires
        !a.contains(sep),
    ensures
        pieces(a + seq![sep] + rest, sep) == seq![a] + pieces(rest, sep),
        pieces(a, sep) == seq![a],
{
    let tail = seq![sep] + rest;
    lemma_first_of_after(a, tail, sep);
    assert(a + seq![sep] + rest =~= a + tail);
    assert(first_of(tail, sep) == 0);
    assert((a + tail).take(a.len() as int) =~= a);
    assert((a + tail).skip(a.len() as int + 1) =~= rest);
    lemma_first_of_after(a, Seq::<T>::empty(), sep);
    assert(a + Seq::<T>::empty() =~= a);
}

/// A piece holds no separator.
pub proof fn lemma_pieces_clean<T>(s: Seq<T>, sep: T)
    ensures
        pieces(s, sep).len() >= 1,
        forall|i: int|
            0 <= i < pieces(s, sep).len() ==> !(#[trigger] pieces(s, sep)[i]).contains(sep),
    decreases s.len(),
{
    lemma_first_of(s, sep);
    let at = first_of(s, sep) as int;
    if at < s.len() {
        lemma_pieces_clean(s.skip(at + 1), sep);
    }
}

/// Cutting at a separator and splitting both sides.
pub proof fn lemma_pieces_join<T>(a: Seq<T>, b: Seq<T>, sep: T)
    ensures
        pieces(a + seq![sep] + b, sep) == pieces(a, sep) + pieces(b, sep),
    decreases a.len(),
{
    lemma_first_of(a, sep);
    let at = first_of(a, sep) as int;
    if at >= a.len() {
        assert(!a.contains(sep));
        lemma_pieces_step(a, b, sep);
    } else {
        let head = a.take(at);
        let tail = a.skip(at + 1);
        assert(!head.contains(sep));
        lemma_pieces_join(tail, b, sep);
        lemma_pieces_step(head, tail, sep);
        lemma_pieces_step(head, tail + seq![sep] + b, sep);
        assert(a =~= head + seq![sep] + tail);
        assert(a + seq![sep] + b =~= head + seq![sep] + (tail + seq![sep] + b));
        assert(seq![head] + (pieces(tail, sep) + pieces(b, sep)) =~= seq![head] + pieces(tail, sep)
            + pieces(b, sep));
    }
}

/// `s` cut at every `sep`.
pub fn split_all<T: Unit>(s: &[T], sep: T) -> (r: Vec<Vec<T>>)
    ensures
        r@.len() == pieces(s@, sep).len(),
        forall|i: int| 0 <= i < r@.len() ==> (#[trigger] r@[i])@ == pieces(s@, sep)[i],
{
    let mut out: Vec<Vec<T>> = Vec::new();
    let mut cur: Vec<T> = Vec::new();
    let ghost mut done: Seq<Seq<T>> = Seq::empty();
    let mut i: usize = 0;
    assert(done + pieces(cur@ + s@.skip(0), sep) =~= pieces(s@, sep)) by {
        assert(cur@ + s@.skip(0) =~= s@);
    }
    while i < s.len()
        invariant
            i <= s@.len(),
            !cur@.contains(sep),
            out@.len() == done.len(),
            forall|k: int| 0 <= k < out@.len() ==> (#[trigger] out@[k])@ == done[k],
            done + pieces(cur@ + s@.skip(i as int), sep) == pieces(s@, sep),
        decreases s@.len() - i,
    {
        let c = s[i];
        let ghost rest = s@.skip(i + 1);
        assert(s@.skip(i as int) =~= seq![c] + rest);
        if c.same(sep) {
            proof {
                lemma_pieces_step(cur@, rest, sep);
                assert(cur@ + (seq![c] + rest) =~= cur@ + seq![c] + rest);
                assert(done + (seq![cur@] + pieces(rest, sep)) =~= done.push(cur@) + pieces(
                    rest,
                    sep,
                ));
                done = done.push(cur@);
                assert(Seq::<T>::empty() + rest =~= rest);
            }
            out.push(cur);
            cur = Vec::new();
            assert(cur@ + rest =~= rest);
        } else {
            assert(cur@ + (seq![c] + rest) =~= cur@.push(c) + rest);
            cur.push(c);
        }
        i += 1;
    }
    proof {
        assert(cur@ + s@.skip(i as int) =~= cur@);
        lemma_pieces_step(cur@, Seq::<T>::empty(), sep);
        assert(done + seq![cur@] =~= done.push(cur@));
    }
    out.push(cur);
    out
}

// ---------------------------------------------------------------------
// Whitespace: fields and trimming.
// ---------------------------------------------------------------------

/// The characters Unicode gives the property `White_Space`.
pub open spec fn is_white(c: char) -> bool {
    let u = c as u32;
    ||| 0x09 <= u <= 0x0d
    ||| u == 0x20
    ||| u == 0x85
    ||| u == 0xa0
    ||| u == 0x1680
    ||| 0x2000 <= u <= 0x200a
    ||| u == 0x2028
    ||| u == 0x2029
    ||| u == 0x202f
    ||| u == 0x205f
    ||| u == 0x3000
}

/// Whether `c` is white space.
pub fn is_whitespace(c: char) -> (b: bool)
    ensures
        b == is_white(c),
{
    let u: u32 = c as u32;
    (0x09 <= u && u <= 0x0d) || u == 0x20 || u == 0x85 || u == 0xa0 || u == 0x1680 || (0x2000 <= u
        && u <= 0x200a) || u == 0x2028 || u == 0x2029 || u == 0x202f || u == 0x205f || u == 0x3000
}

/// The length of the longest stretch at the start of `s` without white space.
pub open spec fn word_len(s: Seq<char>) -> nat
    decreases s.len(),
{
    if s.len() == 0 || is_white(s[0]) {
        0
    } else {
        1 + word_len(s.drop_first())
    }
}

/// The maximal stretches of `s` without white space, in order.
pub open spec fn fields(s: Seq<char>) -> Seq<Seq<char>>
    decreases s.len(),
{
    if s.len() == 0 {
        seq![]
    } else if is_white(s[0]) {
        fields(s.drop_first())
    } else {
        let n = word_len(s);
        proof {
            lemma_word_len_bound(s);
        }
        seq![s.take(n as int)] + fields(s.skip(n as int))
    }
}

/// No character of `s` is white space.
pub open spec fn no_white(s: Seq<char>) -> bool {
    forall|i: int| 0 <= i < s.len() ==> !is_white(#[trigger] s[i])
}

pub proof fn lemma_word_len_bound(s: Seq<char>)
    ensures
        word_len(s) <= s.len(),
    decreases s.len(),
{
    if s.len() != 0 {
        lemma_word_len_bound(s.drop_first());
    }
}

pub proof fn lemma_word_len(a: Seq<char>, rest: Seq<char>)
    requires
        no_white(a),
        rest.len() == 0 || is_white(rest[0]),
    ensures
        word_len(a + rest) == a.len(),
    decreases a.len(),
{
    if a.len() == 0 {
        assert(a + rest =~= rest);
    } else {
        assert(!is_white(a[0]));
        assert((a + rest)[0] == a[0]);
        assert((a + rest).drop_first() =~= a.drop_first() + rest);
        lemma_word_len(a.drop_first(), rest);
    }
}

/// A word, the white space after it, and the fields of what follows.
pub proof fn lemma_fields_step(a: Seq<char>, w: char, rest: Seq<char>)
    requires
        no_white(a),
        is_white(w),
    ensures
        fields(a + seq![w] + rest) == (if a.len() == 0 {
            fields(rest)
        } else {
            seq![a] + fields(rest)
        }),
        fields(a) == (if a.len() == 0 {
            seq![]
        } else {
            seq![a]
        }),
{
    let tail = seq![w] + rest;
    assert(a + seq![w] + rest =~= a + tail);
    assert(tail.drop_first() =~= rest);
    assert(fields(tail) == fields(rest));
    if a.len() == 0 {
        assert(a + tail =~= tail);
    } else {
        assert((a + tail)[0] == a[0]);
        lemma_word_len(a, tail);
        assert((a + tail).take(a.len() as int) =~= a);
        assert((a + tail).skip(a.len() as int) =~= tail);
        lemma_word_len(a, Seq::<char>::empty());
        assert(a + Seq::<char>::empty() =~= a);
        assert(a.take(a.len() as int) =~= a);
        assert(a.skip(a.len() as int) =~= Seq::<char>::empty());
        assert(fields(Seq::<char>::empty()) == Seq::<Seq<char>>::empty());
        assert(seq![a] + Seq::<Seq<char>>::empty() =~= seq![a]);
    }
}

/// The fields of `s`, separated by white space.
pub fn split_whitespace(s: &[char]) -> (r: Vec<Vec<char>>)
    ensures
        r@.len() == fields(s@).len(),
        forall|i: int| 0 <= i < r@.len() ==> (#[trigger] r@[i])@ == fields(s@)[i],
{
    let mut out: Vec<Vec<char>> = Vec::new();
    let mut cur: Vec<char> = Vec::new();
    let ghost mut done: Seq<Seq<char>> = Seq::empty();
    let mut i: usize = 0;
    assert(done + fields(cur@ + s@.skip(0)) =~= fields(s@)) by {
        assert(cur@ + s@.skip(0) =~= s@);
    }
    while i < s.len()
        invariant
            i <= s@.len(),
            no_white(cur@),
            out@.len() == done.len(),
            forall|k: int| 0 <= k < out@.len() ==> (#[trigger] out@[k])@ == done[k],
            done + fields(cur@ + s@.skip(i as int)) == fields(s@),
        decreases s@.len() - i,
    {
        let c = s[i];
        let ghost rest = s@.skip(i + 1);
        assert(s@.skip(i as int) =~= seq![c] + rest);
        if is_whitespace(c) {
            proof {
                lemma_fields_step(cur@, c, rest);
                assert(cur@ + (seq![c] + rest) =~= cur@ + seq![c] + rest);
            }
            if cur.len() > 0 {
                proof {
                    assert(done + (seq![cur@] + fields(rest)) =~= done.push(cur@) + fields(rest));
                    done = done.push(cur@);
                }
                out.push(cur);
                cur = Vec::new();
            }
            assert(cur@ + rest =~= rest);
        } else {
            assert(cur@ + (seq![c] + rest) =~= cur@.push(c) + rest);
            cur.push(c);
        }
        i += 1;
    }
    proof {
        assert(cur@ + s@.skip(i as int) =~= cur@);
        lemma_fields_step(cur@, ' ', Seq::<char>::empty());
        assert(done + Seq::<Seq<char>>::empty() =~= done);
        assert(done + seq![cur@] =~= done.push(cur@));
    }
    if cur.len() > 0 {
        out.push(cur);
    }
    out
}

/// `s` without the white space at its end.
pub open spec fn trimmed_end(s: Seq<char>) -> Seq<char>
    decreases s.len(),
{
    if s.len() > 0 && is_white(s.last()) {
        trimmed_end(s.drop_last())
    } else {
        s
    }
}

/// `s` without the white space at its start.
pub open spec fn trimmed_start(s: Seq<char>) -> Seq<char>
    decreases s.len(),
{
    if s.len() > 0 && is_white(s[0]) {
        trimmed_start(s.drop_first())
    } else {
        s
    }
}

/// `s` without the white space at either end.
pub open spec fn trimmed(s: Seq<char>) -> Seq<char> {
    trimmed_end(trimmed_start(s))
}

/// Take the white space off the end of `s`.
pub fn trim_end(s: &mut Vec<char>)
    ensures
        final(s)@ == trimmed_end(old(s)@),
{
    loop
        invariant
            trimmed_end(s@) == trimmed_end(old(s)@),
        ensures
            s@ == trimmed_end(old(s)@),
        decreases s@.len(),
    {
        let n: usize = s.len();
        if n == 0 || !is_whitespace(s[n - 1]) {
            break;
        }
        s.pop();
    }
}

/// `s` without the white space at either end.
pub fn trim(s: &[char]) -> (r: Vec<char>)
    ensures
        r@ == trimmed(s@),
{
    let mut i: usize = 0;
    assert(s@.skip(0) =~= s@);
    while i < s.len() && is_whitespace(s[i])
        invariant
            i <= s@.len(),
            trimmed_start(s@.skip(i as int)) == trimmed_start(s@),
        decreases s@.len() - i,
    {
        assert(s@.skip(i as int).drop_first() =~= s@.skip(i + 1));
        i += 1;
    }
    let mut r = vstd::slice::slice_to_vec(vstd::slice::slice_subrange(s, i, s.len()));
    assert(r@ =~= s@.skip(i as int));
    trim_end(&mut r);
    r
}

// ---------------------------------------------------------------------
// Lines.
// ---------------------------------------------------------------------

/// A line that a line feed ended, without the carriage return before it.
pub open spec fn without_return(s: Seq<char>) -> Seq<char> {
    if s.len() > 0 && s.last() == '\r' {
        s.drop_last()
    } else {
        s
    }
}

/// The lines of `s`: what each line feed ends, without a carriage return in
/// front of it, and what follows the last line feed, if anything does.
pub open spec fn lines(s: Seq<char>) -> Seq<Seq<char>> {
    let all = pieces(s, '\n');
    let ended = Seq::new((all.len() - 1) as nat, |i: int| without_return(all[i]));
    if all.last().len() == 0 {
        ended
    } else {
        ended.push(all.last())
    }
}

/// The lines of `s`.
pub fn split_lines(s: &[char]) -> (r: Vec<Vec<char>>)
    ensures
        r@.len() == lines(s@).len(),
        forall|i: int| 0 <= i < r@.len() ==> (#[trigger] r@[i])@ == lines(s@)[i],
{
    let mut all = split_all(s, '\n');
    let ghost whole = pieces(s@, '\n');
    proof {
        lemma_pieces_clean(s@, '\n');
    }
    let last: Vec<char> = match all.pop() {
        Some(last) => last,
        None => Vec::new(),
    };
    let mut out: Vec<Vec<char>> = Vec::new();
    let mut i: usize = 0;
    while i < all.len()
        invariant
            i <= all@.len(),
            all@.len() == whole.len() - 1,
            forall|k: int| 0 <= k < all@.len() ==> (#[trigger] all@[k])@ == whole[k],
            out@.len() == i,
            forall|k: int| 0 <= k < i ==> (#[trigger] out@[k])@ == without_return(whole[k]),
        decreases all@.len() - i,
    {
        let mut line: Vec<char> = vstd::slice::slice_to_vec(all[i].as_slice());
        let n: usize = line.len();
        if n > 0 && line[n - 1] == '\r' {
            line.pop();
            assert(line@ =~= without_return(whole[i as int]));
        }
        out.push(line);
        i += 1;
    }
    if last.len() > 0 {
        out.push(last);
    }
    out
}

// ---------------------------------------------------------------------
// Searching.
// ---------------------------------------------------------------------

/// `pat` stands in `s` at position `i`.
pub open spec fn occurs_at<T>(s: Seq<T>, pat: Seq<T>, i: int) -> bool {
    0 <= i && i + pat.len() <= s.len() && s.subrange(i, i + pat.len()) == pat
}

/// `pat` stands somewhere in `s`.
pub open spec fn has_text<T>(s: Seq<T>, pat: Seq<T>) -> bool {
    exists|i: int| occurs_at(s, pat, i)
}

/// Whether `pat` stands in `s` at `i`.
pub fn stands_at<T: Unit>(s: &[T], pat: &[T], i: usize) -> (b: bool)
    ensures
        b == occurs_at(s@, pat@, i as int),
{
    if pat.len() > s.len() || i > s.len() - pat.len() {
        return false;
    }
    let mut k: usize = 0;
    while k < pat.len()
        invariant
            k <= pat@.len(),
            i + pat@.len() <= s@.len(),
            s@.len() == s.len(),
            forall|j: int| 0 <= j < k ==> s@[i + j] == #[trigger] pat@[j],
        decreases pat@.len() - k,
    {
        if !s[i + k].same(pat[k]) {
            assert(s@.subrange(i as int, i + pat@.len())[k as int] != pat@[k as int]);
            return false;
        }
        k += 1;
    }
    assert(s@.subrange(i as int, i + pat@.len()) =~= pat@);
    true
}

/// Where `pat` first stands in `s`.
pub fn find_first<T: Unit>(s: &[T], pat: &[T]) -> (r: Option<usize>)
    ensures
        match r {
            Some(at) => occurs_at(s@, pat@, at as int) && forall|j: int|
                0 <= j < at ==> !occurs_at(s@, pat@, j),
            None => !has_text(s@, pat@),
        },
{
    if pat.len() > s.len() {
        return None;
    }
    let last: usize = s.len() - pat.len();
    let mut i: usize = 0;
    loop
        invariant
            i <= last,
            last == s@.len() - pat@.len(),
            forall|j: int| 0 <= j < i ==> !occurs_at(s@, pat@, j),
        decreases last - i,
    {
        if stands_at(s, pat, i) {
            return Some(i);
        }
        if i == last {
            return None;
        }
        i += 1;
    }
}

/// Where `pat` last stands in `s`.
pub fn find_last<T: Unit>(s: &[T], pat: &[T]) -> (r: Option<usize>)
    ensures
        match r {
            Some(at) => occurs_at(s@, pat@, at as int) && forall|j: int|
                j > at ==> !occurs_at(s@, pat@, j),
            None => !has_text(s@, pat@),
        },
{
    if pat.len() > s.len() {
        return None;
    }
    let mut i: usize = s.len() - pat.len();
    loop
        invariant
            i + pat@.len() <= s@.len(),
            forall|j: int| j > i ==> !occurs_at(s@, pat@, j),
        decreases i,
    {
        if stands_at(s, pat, i) {
            return Some(i);
        }
        if i == 0 {
            return None;
        }
        i -= 1;
    }
}

/// `pat` stands in `s` at `i` and nowhere before.
pub open spec fn is_first<T>(s: Seq<T>, pat: Seq<T>, i: int) -> bool {
    occurs_at(s, pat, i) && forall|j: int| 0 <= j < i ==> !occurs_at(s, pat, j)
}

/// `pat` stands in `s` at `i` and nowhere after.
pub open spec fn is_last<T>(s: Seq<T>, pat: Seq<T>, i: int) -> bool {
    occurs_at(s, pat, i) && forall|j: int| j > i ==> !occurs_at(s, pat, j)
}

/// `s` before and after the first `pat` in it.
pub open spec fn cut_first<T>(s: Seq<T>, pat: Seq<T>) -> Option<(Seq<T>, Seq<T>)> {
    if has_text(s, pat) {
        let i = choose|i: int| is_first(s, pat, i);
        Some((s.take(i), s.skip(i + pat.len())))
    } else {
        None
    }
}

/// `s` before and after the last `pat` in it.
pub open spec fn cut_last<T>(s: Seq<T>, pat: Seq<T>) -> Option<(Seq<T>, Seq<T>)> {
    if has_text(s, pat) {
        let i = choose|i: int| is_last(s, pat, i);
        Some((s.take(i), s.skip(i + pat.len())))
    } else {
        None
    }
}

/// `s` before and after the first `pat` in it.
pub fn split_once<T: Unit>(s: &[T], pat: &[T]) -> (r: Option<(Vec<T>, Vec<T>)>)
    ensures
        match r {
            Some((before, after)) => cut_first(s@, pat@) == Some((before@, after@)),
            None => cut_first(s@, pat@) is None,
        },
{
    match find_first(s, pat) {
        None => None,
        Some(at) => {
            proof {
                let i = choose|i: int| is_first(s@, pat@, i);
                assert(is_first(s@, pat@, at as int));
                assert(has_text(s@, pat@));
                assert(i == at);
            }
            assert(at + pat@.len() <= s@.len() && s@.len() == s.len() && pat@.len() == pat.len());
            let end: usize = at + pat.len();
            let before = vstd::slice::slice_to_vec(vstd::slice::slice_subrange(s, 0, at));
            let after = vstd::slice::slice_to_vec(vstd::slice::slice_subrange(s, end, s.len()));
            assert(before@ =~= s@.take(at as int));
            assert(after@ =~= s@.skip(at + pat@.len()));
            Some((before, after))
        },
    }
}

/// `s` before and after the last `pat` in it.
pub fn rsplit_once<T: Unit>(s: &[T], pat: &[T]) -> (r: Option<(Vec<T>, Vec<T>)>)
    ensures
        match r {
            Some((before, after)) => cut_last(s@, pat@) == Some((before@, after@)),
            None => cut_last(s@, pat@) is None,
        },
{
    match find_last(s, pat) {
        None => None,
        Some(at) => {
            proof {
                let i = choose|i: int| is_last(s@, pat@, i);
                assert(is_last(s@, pat@, at as int));
                assert(has_text(s@, pat@));
                assert(i == at);
            }
            assert(at + pat@.len() <= s@.len() && s@.len() == s.len() && pat@.len() == pat.len());
            let end: usize = at + pat.len();
            let before = vstd::slice::slice_to_vec(vstd::slice::slice_subrange(s, 0, at));
            let after = vstd::slice::slice_to_vec(vstd::slice::slice_subrange(s, end, s.len()));
            assert(before@ =~= s@.take(at as int));
            assert(after@ =~= s@.skip(at + pat@.len()));
            Some((before, after))
        },
    }
}

// ---------------------------------------------------------------------
// Replacing.
// ---------------------------------------------------------------------

/// `s` with every `pat` in it, from the left, replaced by `with`.
pub open spec fn replaced<T>(s: Seq<T>, pat: Seq<T>, with: Seq<T>) -> Seq<T>
    decreases s.len(),
{
    if pat.len() == 0 || s.len() == 0 {
        s
    } else if occurs_at(s, pat, 0) {
        with + replaced(s.skip(pat.len() as int), pat, with)
    } else {
        seq![s[0]] + replaced(s.skip(1), pat, with)
    }
}

/// `s` with every `pat` in it replaced by `with`.
pub fn replace<T: Unit>(s: &[T], pat: &[T], with: &[T]) -> (r: Vec<T>)
    ensures
        r@ == replaced(s@, pat@, with@),
{
    if pat.len() == 0 {
        return vstd::slice::slice_to_vec(s);
    }
    let ghost all = s@;
    let mut out: Vec<T> = Vec::new();
    let mut i: usize = 0;
    assert(all.skip(0) =~= all);
    assert(out@ + replaced(all, pat@, with@) =~= replaced(all, pat@, with@));
    while i < s.len()
        invariant
            i <= s@.len(),
            s@.len() == s.len(),
            all == s@,
            pat@.len() > 0,
            pat@.len() == pat.len(),
            out@ + replaced(all.skip(i as int), pat@, with@) == replaced(all, pat@, with@),
        decreases s@.len() - i,
    {
        let ghost rest = all.skip(i as int);
        let ghost before = out@;
        proof {
            assert(rest[0] == s@[i as int]);
            if i + pat@.len() <= all.len() {
                assert(rest.subrange(0, pat@.len() as int) =~= all.subrange(
                    i as int,
                    i + pat@.len(),
                ));
            }
            assert(occurs_at(rest, pat@, 0) == occurs_at(all, pat@, i as int));
        }
        if stands_at(s, pat, i) {
            let mut more = vstd::slice::slice_to_vec(with);
            out.append(&mut more);
            proof {
                assert(rest.skip(pat@.len() as int) =~= all.skip(i + pat@.len()));
                assert(out@ =~= before + with@);
                assert(before + (with@ + replaced(all.skip(i + pat@.len()), pat@, with@)) =~= out@
                    + replaced(all.skip(i + pat@.len()), pat@, with@));
            }
            i += pat.len();
        } else {
            out.push(s[i]);
            proof {
                assert(rest.skip(1) =~= all.skip(i + 1));
                assert(before + (seq![rest[0]] + replaced(all.skip(i + 1), pat@, with@)) =~= out@
                    + replaced(all.skip(i + 1), pat@, with@));
            }
            i += 1;
        }
    }
    assert(all.skip(i as int) =~= Seq::<T>::empty());
    assert(out@ + Seq::<T>::empty() =~= out@);
    out
}

// ---------------------------------------------------------------------
// Unicode.
// ---------------------------------------------------------------------

/// The text bytes are shown as: `String::from_utf8_lossy`.
pub uninterp spec fn utf8_lossy(bytes: Seq<u8>) -> Seq<char>;

/// `String::from_utf8_lossy` of the standard library: the text of `bytes`,
/// which is exactly what they encode when they are valid UTF-8. Which
/// replacement characters stand for invalid bytes is left to its name.
#[verifier::external_body]
pub(crate) fn lossy(bytes: &[u8]) -> (r: String)
    ensures
        r@ == utf8_lossy(bytes@),
        vstd::utf8::valid_utf8(bytes@) ==> r@ == vstd::utf8::decode_utf8(bytes@),
{
    String::from_utf8_lossy(bytes).into_owned()
}

/// The text bytes are shown as: what they encode when they are valid UTF-8.
pub open spec fn shown(bytes: Seq<u8>) -> Seq<char> {
    if vstd::utf8::valid_utf8(bytes) {
        vstd::utf8::decode_utf8(bytes)
    } else {
        utf8_lossy(bytes)
    }
}

/// The text `bytes` are shown as.
pub fn show(bytes: &[u8]) -> (r: String)
    ensures
        r@ == shown(bytes@),
{
    lossy(bytes)
}

/// The bytes at the front of `bytes` are those of a surrogate, which UTF-8
/// has no place for.
pub open spec fn surrogate_first(bytes: Seq<u8>) -> bool {
    &&& bytes.len() >= 3
    &&& bytes[0] == 0xED
    &&& 0xA0 <= bytes[1] <= 0xBF
    &&& 0x80 <= bytes[2] <= 0xBF
}

/// `bytes` with each surrogate as the bytes of one replacement character.
pub open spec fn mended(bytes: Seq<u8>) -> Seq<u8>
    decreases bytes.len(),
{
    if bytes.len() == 0 {
        seq![]
    } else if surrogate_first(bytes) {
        seq![0xEFu8, 0xBF, 0xBD] + mended(bytes.skip(3))
    } else {
        seq![bytes[0]] + mended(bytes.skip(1))
    }
}

/// `bytes` with each surrogate as the bytes of one replacement character.
pub fn mend(bytes: &[u8]) -> (r: Vec<u8>)
    ensures
        r@ == mended(bytes@),
{
    let ghost all = bytes@;
    let n: usize = bytes.len();
    let mut out: Vec<u8> = Vec::new();
    let mut i: usize = 0;
    assert(all.skip(0) =~= all);
    assert(out@ + mended(all.skip(0)) =~= mended(all));
    while i < n
        invariant
            i <= n,
            n == all.len(),
            all == bytes@,
            out@ + mended(all.skip(i as int)) == mended(all),
        decreases n - i,
    {
        let ghost rest = all.skip(i as int);
        let ghost before = out@;
        if n - i >= 3 && bytes[i] == 0xED && 0xA0 <= bytes[i + 1] && bytes[i + 1] <= 0xBF && 0x80
            <= bytes[i + 2] && bytes[i + 2] <= 0xBF {
            assert(surrogate_first(rest));
            assert(rest.skip(3) =~= all.skip(i + 3));
            out.push(0xEF);
            out.push(0xBF);
            out.push(0xBD);
            assert(out@ + mended(all.skip(i + 3)) =~= before + mended(rest));
            i += 3;
        } else {
            assert(!surrogate_first(rest));
            assert(rest.skip(1) =~= all.skip(i + 1));
            out.push(bytes[i]);
            assert(out@ + mended(all.skip(i + 1)) =~= before + mended(rest));
            i += 1;
        }
    }
    assert(all.skip(n as int) =~= Seq::<u8>::empty());
    assert(out@ =~= out@ + mended(all.skip(n as int)));
    out
}

/// No byte of the first `n` is where a surrogate starts.
proof fn lemma_mended_skip(bytes: Seq<u8>, n: int)
    requires
        0 <= n <= bytes.len(),
        forall|i: int| 0 <= i < n ==> !surrogate_first(#[trigger] bytes.skip(i)),
    ensures
        mended(bytes) == bytes.take(n) + mended(bytes.skip(n)),
    decreases n,
{
    if n == 0 {
        assert(bytes.skip(0) =~= bytes);
        assert(bytes.take(0) + mended(bytes) =~= mended(bytes));
    } else {
        let rest = bytes.skip(1);
        assert(bytes.skip(0) =~= bytes);
        assert(!surrogate_first(bytes.skip(0)));
        assert forall|i: int| 0 <= i < n - 1 implies !surrogate_first(#[trigger] rest.skip(i)) by {
            assert(rest.skip(i) =~= bytes.skip(i + 1));
        }
        lemma_mended_skip(rest, n - 1);
        assert(rest.skip(n - 1) =~= bytes.skip(n));
        assert(seq![bytes[0]] + (rest.take(n - 1) + mended(bytes.skip(n))) =~= bytes.take(n)
            + mended(bytes.skip(n)));
    }
}

/// UTF-8 holds no surrogate, so nothing in it is replaced.
pub proof fn lemma_mended_valid(bytes: Seq<u8>)
    requires
        vstd::utf8::valid_utf8(bytes),
    ensures
        mended(bytes) == bytes,
    decreases bytes.len(),
{
    if bytes.len() > 0 {
        let n = vstd::utf8::length_of_first_scalar(bytes);
        assert(vstd::utf8::valid_first_scalar(bytes));
        let rest = vstd::utf8::pop_first_scalar(bytes);
        assert(rest =~= bytes.skip(n));
        if n == 3 && bytes[0] == 0xED && 0xA0 <= bytes[1] {
            let (b, c) = (bytes[1], bytes[2]);
            assert(0xD800u32 <= ((((0xEDu8 & 0x0Fu8) as u32) << 12u32) | (((b & 0x3Fu8) as u32)
                << 6u32) | ((c & 0x3Fu8) as u32)) <= 0xDFFFu32) by (bit_vector)
                requires
                    0xA0u8 <= b <= 0xBFu8,
                    0x80u8 <= c <= 0xBFu8,
            ;
            assert(false);
        }
        assert forall|i: int| 0 <= i < n implies !surrogate_first(#[trigger] bytes.skip(i)) by {
            let tail = bytes.skip(i);
            assert(tail[0] == bytes[i]);
            if i > 0 {
                assert(vstd::utf8::is_continuation_byte(bytes[i]));
            } else if surrogate_first(tail) {
                assert(tail[1] == bytes[1]);
            }
        }
        lemma_mended_skip(bytes, n);
        lemma_mended_valid(rest);
        assert(bytes.take(n) + rest =~= bytes);
    }
}

/// `str::from_utf8` of the standard library: it succeeds on valid UTF-8 and
/// on nothing else.
#[verifier::external_body]
pub(crate) fn is_utf8(bytes: &[u8]) -> (r: bool)
    ensures
        r == vstd::utf8::valid_utf8(bytes@),
{
    std::str::from_utf8(bytes).is_ok()
}

/// The lowercase of a text: `str::to_lowercase`.
pub uninterp spec fn lowercase(s: Seq<char>) -> Seq<char>;

/// An ASCII capital as its small letter, anything else as it is.
pub open spec fn ascii_lower(c: char) -> char {
    if 'A' <= c <= 'Z' {
        (c as u8 + 32) as char
    } else {
        c
    }
}

/// `s` with its ASCII capitals as small letters.
pub open spec fn ascii_lowercase(s: Seq<char>) -> Seq<char> {
    s.map_values(|c: char| ascii_lower(c))
}

/// `str::to_lowercase` of the standard library: the Unicode lowercase of
/// `s`, which for ASCII text maps `A` to `Z` and nothing else.
#[verifier::external_body]
pub(crate) fn to_lowercase(s: &str) -> (r: String)
    ensures
        r@ == lowercase(s@),
        vstd::utf8::is_ascii_chars(s@) ==> r@ == ascii_lowercase(s@),
{
    s.to_lowercase()
}

/// `s` without regard to case: its Unicode lowercase.
pub open spec fn lowered(s: Seq<char>) -> Seq<char> {
    if vstd::utf8::is_ascii_chars(s) {
        ascii_lowercase(s)
    } else {
        lowercase(s)
    }
}

/// `s` in lowercase.
pub fn lower(s: &str) -> (r: String)
    ensures
        r@ == lowered(s@),
{
    to_lowercase(s)
}

/// `c`, as a small letter if it is an ASCII capital.
pub fn to_ascii_lower(c: char) -> (r: char)
    ensures
        r == ascii_lower(c),
{
    if 'A' <= c && c <= 'Z' {
        ((c as u8) + 32) as char
    } else {
        c
    }
}

/// `s` with its ASCII capitals as small letters.
pub fn to_ascii_lowercase(s: &[char]) -> (r: Vec<char>)
    ensures
        r@ == ascii_lowercase(s@),
{
    let mut out: Vec<char> = Vec::new();
    let mut i: usize = 0;
    while i < s.len()
        invariant
            i <= s@.len(),
            out@ =~= ascii_lowercase(s@.take(i as int)),
        decreases s@.len() - i,
    {
        out.push(to_ascii_lower(s[i]));
        i += 1;
    }
    assert(s@.take(s@.len() as int) =~= s@);
    out
}

/// A control character: the Unicode category `Cc`.
pub open spec fn is_ctl(c: char) -> bool {
    (c as u32) < 0x20 || 0x7f <= c as u32 <= 0x9f
}

/// Whether `c` is a control character.
pub fn is_control(c: char) -> (b: bool)
    ensures
        b == is_ctl(c),
{
    let u: u32 = c as u32;
    u < 0x20 || (0x7f <= u && u <= 0x9f)
}

// ---------------------------------------------------------------------
// Numbers as text.
// ---------------------------------------------------------------------

/// The digit for `n`, below ten.
pub open spec fn digit(n: nat) -> char {
    (48 + n) as u8 as char
}

/// `n` in decimal.
pub open spec fn decimal(n: nat) -> Seq<char>
    decreases n,
{
    if n < 10 {
        seq![digit(n)]
    } else {
        decimal(n / 10).push(digit(n % 10))
    }
}

/// Write `n` in decimal at the end of `out`.
pub fn push_decimal(out: &mut String, n: u64)
    ensures
        final(out)@ == old(out)@ + decimal(n as nat),
    decreases n,
{
    if n >= 10 {
        push_decimal(out, n / 10);
    }
    let low: u8 = (n % 10) as u8;
    let c: char = (48 + low) as char;
    out.push(c);
    assert(out@ =~= old(out)@ + decimal(n as nat));
}

/// The small hexadecimal digit for `n`, below sixteen.
pub open spec fn hex_digit(n: nat) -> char {
    if n < 10 {
        digit(n)
    } else {
        (87 + n) as u8 as char
    }
}

/// `n` in hexadecimal, small letters.
pub open spec fn hex(n: nat) -> Seq<char>
    decreases n,
{
    if n < 16 {
        seq![hex_digit(n)]
    } else {
        hex(n / 16).push(hex_digit(n % 16))
    }
}

/// Write `n` in hexadecimal at the end of `out`.
pub fn push_hex(out: &mut String, n: u32)
    ensures
        final(out)@ == old(out)@ + hex(n as nat),
    decreases n,
{
    if n >= 16 {
        push_hex(out, n / 16);
    }
    let low: u8 = (n % 16) as u8;
    let c: char = if low < 10 {
        (48 + low) as char
    } else {
        (87 + low) as char
    };
    out.push(c);
    assert(out@ =~= old(out)@ + hex(n as nat));
}

/// A decimal digit.
pub open spec fn is_digit(c: char) -> bool {
    '0' <= c <= '9'
}

/// The number the digits of `s` write.
pub open spec fn number(s: Seq<char>) -> nat
    decreases s.len(),
{
    if s.len() == 0 {
        0
    } else {
        number(s.drop_last()) * 10 + (s.last() as u32 - 48) as nat
    }
}

/// `s` without a plus sign in front.
pub open spec fn unsigned(s: Seq<char>) -> Seq<char> {
    if s.len() > 0 && s[0] == '+' {
        s.drop_first()
    } else {
        s
    }
}

/// `s` writes a number of 32 bits: digits, with a plus sign in front or not.
pub open spec fn is_u32(s: Seq<char>) -> bool {
    let digits = unsigned(s);
    &&& digits.len() > 0
    &&& forall|i: int| 0 <= i < digits.len() ==> is_digit(#[trigger] digits[i])
    &&& number(digits) <= u32::MAX
}

/// Whether `s` writes a number of 32 bits.
pub fn reads_u32(s: &[char]) -> (b: bool)
    ensures
        b == is_u32(s@),
{
    let start: usize = if s.len() > 0 && s[0] == '+' {
        1
    } else {
        0
    };
    let ghost digits = unsigned(s@);
    assert(digits =~= s@.skip(start as int));
    if start == s.len() {
        return false;
    }
    let mut over = false;
    let mut value: u64 = 0;
    let mut i: usize = start;
    while i < s.len()
        invariant
            start <= i <= s@.len(),
            digits == s@.skip(start as int),
            digits == unsigned(s@),
            forall|k: int| 0 <= k < i - start ==> is_digit(#[trigger] digits[k]),
            over ==> number(digits.take(i - start)) > u32::MAX,
            !over ==> value == number(digits.take(i - start)) && value <= u32::MAX,
        decreases s@.len() - i,
    {
        let c = s[i];
        let ghost next = digits.take(i - start + 1);
        assert(digits[i - start] == c);
        if c < '0' || c > '9' {
            assert(!is_digit(digits[i - start]));
            return false;
        }
        proof {
            assert(next.drop_last() =~= digits.take(i - start));
            assert(next.last() == c);
        }
        if !over {
            value = value * 10 + (c as u64 - 48);
            if value > 0xffff_ffff {
                over = true;
            }
        }
        i += 1;
    }
    assert(digits.take(s@.len() - start) =~= digits);
    !over
}

} // verus!
