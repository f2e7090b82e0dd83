//! What holds of text: numbers, lines and words.

use vstd::prelude::*;

use crate::path;
use crate::platform::Platform;
use crate::size;
use crate::text;

verus! {

/// A number in decimal is made of digits, reads as the number, and has no
/// zero in front.
pub proof fn lemma_decimal(n: nat)
    ensures
        text::decimal(n).len() > 0,
        forall|i: int|
            0 <= i < text::decimal(n).len() ==> '0' <= #[trigger] text::decimal(n)[i] <= '9',
        text::number(text::decimal(n)) == n,
        n > 0 ==> text::decimal(n)[0] != '0',
        n < 10 ==> text::decimal(n).len() == 1,
    decreases n,
{
    lemma_digit(n % 10);
    if n >= 10 {
        lemma_decimal(n / 10);
        let front = text::decimal(n / 10);
        let all = text::decimal(n);
        assert(all.drop_last() =~= front);
        assert forall|i: int| 0 <= i < all.len() implies '0' <= #[trigger] all[i] <= '9' by {
            if i < front.len() {
                assert(all[i] == front[i]);
            }
        }
        assert(all[0] == front[0]);
    } else {
        lemma_digit(n);
        let all = text::decimal(n);
        assert(all.drop_last() =~= Seq::<char>::empty());
        assert(text::number(Seq::<char>::empty()) == 0);
    }
}

proof fn lemma_digit(n: nat)
    requires
        n < 10,
    ensures
        '0' <= text::digit(n) <= '9',
        text::digit(n) as u32 == 48 + n,
        n > 0 ==> text::digit(n) != '0',
{
}

/// The number a text of digits reads as: each digit more counts ten times
/// what stood before it.
pub proof fn lemma_number(s: Seq<char>, c: char)
    ensures
        text::number(Seq::<char>::empty()) == 0,
        '0' <= c <= '9' ==> text::number(s.push(c)) == 10 * text::number(s) + (c as u32 - 48),
{
    assert(s.push(c).drop_last() =~= s);
}

/// What a small hexadecimal digit counts.
pub open spec fn hex_value(c: char) -> nat {
    if '0' <= c <= '9' {
        (c as u32 - 48) as nat
    } else {
        (c as u32 - 87) as nat
    }
}

/// The number a text of hexadecimal digits reads as.
pub open spec fn hex_number(s: Seq<char>) -> nat
    decreases s.len(),
{
    if s.len() == 0 {
        0
    } else {
        16 * hex_number(s.drop_last()) + hex_value(s.last())
    }
}

/// A number in hexadecimal is made of digits and small letters, reads as the
/// number, and has no zero in front.
pub proof fn lemma_hex(n: nat)
    ensures
        text::hex(n).len() > 0,
        forall|i: int|
            0 <= i < text::hex(n).len() ==> '0' <= #[trigger] text::hex(n)[i] <= '9' || 'a'
                <= text::hex(n)[i] <= 'f',
        hex_number(text::hex(n)) == n,
        n > 0 ==> text::hex(n)[0] != '0',
    decreases n,
{
    let all = text::hex(n);
    if n >= 16 {
        lemma_hex(n / 16);
        let front = text::hex(n / 16);
        assert(all.drop_last() =~= front);
        assert(all[0] == front[0]);
        assert forall|i: int| 0 <= i < all.len() implies '0' <= #[trigger] all[i] <= '9' || 'a'
            <= all[i] <= 'f' by {
            if i < front.len() {
                assert(all[i] == front[i]);
            }
        }
        let low = n % 16;
        assert(hex_value(text::hex_digit(low)) == low);
    } else {
        assert(all.drop_last() =~= Seq::<char>::empty());
        assert(hex_number(Seq::<char>::empty()) == 0);
    }
}

/// The binary unit a number of bytes is shown in.
pub open spec fn unit_name(step: nat) -> Seq<char> {
    if step == 0 {
        "B"@
    } else if step == 1 {
        "KiB"@
    } else if step == 2 {
        "MiB"@
    } else if step == 3 {
        "GiB"@
    } else if step == 4 {
        "TiB"@
    } else if step == 5 {
        "PiB"@
    } else {
        "EiB"@
    }
}

/// How many bytes the unit at `step` is: each is 1024 of the one before.
pub open spec fn unit_size(step: nat) -> nat
    decreases step,
{
    if step == 0 {
        1
    } else {
        1024 * unit_size((step - 1) as nat)
    }
}

/// A number of bytes is shown in the largest unit it fills, rounded down:
/// to tenths below ten of a unit larger than a byte, to whole ones
/// otherwise.
pub proof fn lemma_bytes_shown(bytes: nat, step: nat)
    requires
        bytes <= u64::MAX,
        step <= 6,
        step > 0 ==> unit_size(step) <= bytes,
        bytes < unit_size(step + 1) || step == 6,
    ensures
        ({
            let unit = unit_size(step);
            let whole = bytes / unit;
            let tenths = bytes * 10 / unit;
            &&& step == 0 || whole >= 10 ==> size::shown_bytes(bytes) == text::decimal(whole) + " "@
                + unit_name(step)
            &&& step > 0 && whole < 10 ==> size::shown_bytes(bytes) == text::decimal(whole) + "."@
                + text::decimal((tenths - 10 * whole) as nat) + " "@ + unit_name(step) && 0
                <= tenths - 10 * whole < 10
        }),
{
    reveal_with_fuel(unit_size, 8);
    reveal_strlit(".");
    let unit = unit_size(step);
    assert(size::unit_for(bytes) == (unit, unit_name(step)));
    let whole = bytes / unit;
    let rest = bytes % unit;
    vstd::arithmetic::div_mod::lemma_fundamental_div_mod(bytes as int, unit as int);
    assert(bytes * 10 == rest * 10 + (10 * whole) * unit) by (nonlinear_arith)
        requires
            bytes == unit * whole + rest,
    ;
    vstd::arithmetic::div_mod::lemma_hoist_over_denominator(
        (rest * 10) as int,
        (10 * whole) as int,
        unit,
    );
    let tenths = bytes * 10 / unit;
    assert(tenths == rest * 10 / unit + 10 * whole);
    assert(rest * 10 / unit < 10) by (nonlinear_arith)
        requires
            rest < unit,
    ;
    let t = (rest * 10 / unit) as nat;
    assert(text::decimal(t) == seq![text::digit(t)]);
    if step > 0 && whole < 10 {
        assert(seq!['.', text::digit(t)] =~= "."@ + text::decimal(t));
        assert(size::shown_bytes(bytes) =~= text::decimal(whole) + "."@ + text::decimal(t) + " "@
            + unit_name(step));
    } else {
        assert(size::shown_bytes(bytes) =~= text::decimal(whole) + " "@ + unit_name(step));
    }
}

/// A line ends at its line feed, which is no part of it, nor is a carriage
/// return in front of that; what follows the last line feed is a line where
/// it is anything.
pub proof fn lemma_lines_by_feed(line: Seq<char>, rest: Seq<char>)
    requires
        !line.contains('\n'),
    ensures
        line.len() == 0 ==> text::lines(line) == Seq::<Seq<char>>::empty(),
        line.len() > 0 ==> text::lines(line) == seq![line],
        line.len() > 0 && line.last() == '\r' ==> text::lines(line + seq!['\n'] + rest) == seq![
            line.drop_last(),
        ] + text::lines(rest),
        line.len() == 0 || line.last() != '\r' ==> text::lines(line + seq!['\n'] + rest) == seq![
            line,
        ] + text::lines(rest),
{
    text::lemma_pieces_step(line, rest, '\n');
    text::lemma_pieces_clean(rest, '\n');
    let all = text::pieces(rest, '\n');
    let whole = text::pieces(line + seq!['\n'] + rest, '\n');
    assert(whole =~= seq![line] + all);
    assert(whole.last() == all.last());
    assert(text::lines(line + seq!['\n'] + rest) =~= seq![text::without_return(line)]
        + text::lines(rest));
    assert(text::lines(line) =~= if line.len() == 0 {
        Seq::<Seq<char>>::empty()
    } else {
        seq![line]
    });
}

/// Trimming takes the white space off both ends and nothing else.
pub proof fn lemma_trimmed(s: Seq<char>)
    ensures
        ({
            let t = text::trimmed(s);
            &&& t.len() > 0 ==> !text::is_white(t[0]) && !text::is_white(t.last())
            &&& exists|before: Seq<char>, after: Seq<char>|
                all_white(before) && all_white(after) && s == #[trigger] (before + t + after)
        }),
{
    let rest = text::trimmed_start(s);
    let before = lemma_trimmed_start(s);
    let after = lemma_trimmed_end(rest);
    let t = text::trimmed(s);
    assert(s =~= before + t + after);
    if t.len() > 0 {
        assert(rest[0] == t[0]);
    }
}

/// Nothing but white space.
pub open spec fn all_white(s: Seq<char>) -> bool {
    forall|i: int| 0 <= i < s.len() ==> text::is_white(#[trigger] s[i])
}

proof fn lemma_trimmed_start(s: Seq<char>) -> (before: Seq<char>)
    ensures
        all_white(before),
        s == before + text::trimmed_start(s),
        text::trimmed_start(s).len() > 0 ==> !text::is_white(text::trimmed_start(s)[0]),
    decreases s.len(),
{
    if s.len() > 0 && text::is_white(s[0]) {
        let rest = lemma_trimmed_start(s.drop_first());
        let before = seq![s[0]] + rest;
        let tail = text::trimmed_start(s.drop_first());
        assert(s.drop_first() == rest + tail);
        assert(s =~= seq![s[0]] + s.drop_first());
        assert(seq![s[0]] + (rest + tail) =~= before + tail);
        assert forall|i: int| 0 <= i < before.len() implies text::is_white(#[trigger] before[i]) by {
            if i > 0 {
                assert(before[i] == rest[i - 1]);
            }
        }
        before
    } else {
        assert(s =~= Seq::<char>::empty() + s);
        Seq::<char>::empty()
    }
}

proof fn lemma_trimmed_end(s: Seq<char>) -> (after: Seq<char>)
    ensures
        all_white(after),
        s == text::trimmed_end(s) + after,
        text::trimmed_end(s).len() > 0 ==> !text::is_white(text::trimmed_end(s).last()),
    decreases s.len(),
{
    if s.len() > 0 && text::is_white(s.last()) {
        let rest = lemma_trimmed_end(s.drop_last());
        let after = rest.push(s.last());
        let lead = text::trimmed_end(s.drop_last());
        assert(s.drop_last() == lead + rest);
        assert(s =~= s.drop_last().push(s.last()));
        assert((lead + rest).push(s.last()) =~= lead + after);
        assert forall|i: int| 0 <= i < after.len() implies text::is_white(#[trigger] after[i]) by {
            if i < rest.len() {
                assert(after[i] == rest[i]);
            }
        }
        after
    } else {
        assert(s =~= s + Seq::<char>::empty());
        Seq::<char>::empty()
    }
}

/// A text in which the first character of the pattern does not stand is left
/// as it is; the pattern behind such a text is replaced, and what follows is
/// read on.
pub proof fn lemma_replaced(before: Seq<char>, pat: Seq<char>, with: Seq<char>, after: Seq<char>)
    requires
        pat.len() > 0,
        !before.contains(pat[0]),
    ensures
        text::replaced(before, pat, with) == before,
        text::replaced(before + pat + after, pat, with) == before + with + text::replaced(
            after,
            pat,
            with,
        ),
    decreases before.len(),
{
    let whole = before + pat + after;
    if before.len() == 0 {
        assert(whole =~= pat + after);
        assert(whole.subrange(0, pat.len() as int) =~= pat);
        assert(whole.skip(pat.len() as int) =~= after);
        assert(before + with + text::replaced(after, pat, with) =~= with + text::replaced(
            after,
            pat,
            with,
        ));
    } else {
        let rest = before.skip(1);
        assert(before.contains(before[0]));
        assert(!rest.contains(pat[0])) by {
            if rest.contains(pat[0]) {
                let i = choose|i: int| 0 <= i < rest.len() && rest[i] == pat[0];
                assert(before[i + 1] == pat[0]);
            }
        }
        lemma_replaced(rest, pat, with, after);
        if text::occurs_at(whole, pat, 0) {
            assert(whole.subrange(0, pat.len() as int)[0] == pat[0]);
        }
        if text::occurs_at(before, pat, 0) {
            assert(before.subrange(0, pat.len() as int)[0] == pat[0]);
        }
        assert(whole.skip(1) =~= rest + pat + after);
        assert(seq![before[0]] + rest =~= before);
        assert(seq![before[0]] + (rest + with + text::replaced(after, pat, with)) =~= before + with
            + text::replaced(after, pat, with));
    }
}

/// A surrogate, which UTF-8 has no place for, is shown as one replacement
/// character, and what follows is read on; a byte that starts none stays.
pub proof fn lemma_mended(a: u8, b: u8, rest: Seq<u8>)
    ensures
        text::mended(Seq::<u8>::empty()) == Seq::<u8>::empty(),
        0xa0 <= a <= 0xbf && 0x80 <= b <= 0xbf ==> text::mended(seq![0xedu8, a, b] + rest) == seq![
            0xefu8,
            0xbf,
            0xbd,
        ] + text::mended(rest),
        a != 0xed ==> text::mended(seq![a] + rest) == seq![a] + text::mended(rest),
{
    let three = seq![0xedu8, a, b] + rest;
    assert(three.skip(3) =~= rest);
    let one = seq![a] + rest;
    assert(one.skip(1) =~= rest);
}

/// What is said of a number of bytes is how it is shown.
pub proof fn lemma_bytes_said(bytes: u64, said: String)
    requires
        call_ensures(size::human_bytes, (bytes,), said),
    ensures
        said@ == size::shown_bytes(bytes as nat),
{
}

/// Bytes are shown as the text they encode where they are UTF-8; on Windows
/// surrogates are mended first.
pub proof fn lemma_shown(platform: Platform, bytes: Seq<u8>)
    ensures
        vstd::utf8::valid_utf8(bytes) ==> path::displayed(platform, bytes)
            == vstd::utf8::decode_utf8(bytes),
        !(platform is Windows) && !vstd::utf8::valid_utf8(bytes) ==> path::displayed(platform, bytes)
            == text::utf8_lossy(bytes),
        platform is Windows ==> path::displayed(platform, bytes) == path::displayed(
            Platform::Linux,
            text::mended(bytes),
        ),
{
    if vstd::utf8::valid_utf8(bytes) {
        text::lemma_mended_valid(bytes);
    }
}

/// A text in small letters: an ASCII one letter by letter.
pub proof fn lemma_lowered(s: Seq<char>, i: int)
    requires
        vstd::utf8::is_ascii_chars(s),
        0 <= i < s.len(),
    ensures
        text::lowered(s).len() == s.len(),
        'A' <= s[i] <= 'Z' ==> text::lowered(s)[i] as u32 == s[i] as u32 + 32,
        !('A' <= s[i] <= 'Z') ==> text::lowered(s)[i] == s[i],
{
}

/// The characters that are white space.
pub proof fn lemma_white(c: char)
    ensures
        text::is_white(c) <==> c == ' ' || ('\u{9}' <= c <= '\u{d}') || c == '\u{85}' || c
            == '\u{a0}' || c == '\u{1680}' || ('\u{2000}' <= c <= '\u{200a}') || c == '\u{2028}'
            || c == '\u{2029}' || c == '\u{202f}' || c == '\u{205f}' || c == '\u{3000}',
{
}

} // verus!
