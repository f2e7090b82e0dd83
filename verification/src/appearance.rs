//! Light or dark when there is no Omarchy theme to follow.
//!
//! On Omarchy the desktop's theme files decide. Elsewhere there are none,
//! and the app follows the system appearance instead, with a dark and a
//! light palette of its own, and switches when it does.

use vstd::prelude::*;

use crate::path;
use crate::path::{Component, Part, PathBuf, PathView};
use crate::platform::Platform;
use crate::text;

verus! {

/// A desktop whose settings state a preference, by its name in small
/// letters.
pub open spec fn has_setting(name: Seq<char>) -> bool {
    ||| name == "gnome"@
    ||| name == "kde"@
    ||| name == "ubuntu"@
    ||| name == "unity"@
    ||| name == "pantheon"@
    ||| name == "cinnamon"@
}

/// The system has a light or dark setting to follow, where `desktop` is the
/// value of `XDG_CURRENT_DESKTOP`: names with colons between.
pub open spec fn prefers(platform: Platform, desktop: Seq<char>) -> bool {
    ||| !(platform is Linux)
    ||| exists|i: int|
        0 <= i < text::pieces(desktop, ':').len() && has_setting(
            text::ascii_lowercase(#[trigger] text::pieces(desktop, ':')[i]),
        )
}

/// Whether a desktop's settings state a preference, by its name in small
/// letters.
fn sets_preference(name: &[char]) -> (r: bool)
    ensures
        r == has_setting(name@),
{
    text::same_units(name, text::chars_of("gnome").as_slice()) || text::same_units(
        name,
        text::chars_of("kde").as_slice(),
    ) || text::same_units(name, text::chars_of("ubuntu").as_slice()) || text::same_units(
        name,
        text::chars_of("unity").as_slice(),
    ) || text::same_units(name, text::chars_of("pantheon").as_slice()) || text::same_units(
        name,
        text::chars_of("cinnamon").as_slice(),
    )
}

/// Whether the system has a light or dark setting to follow. macOS and
/// Windows always do. On Linux the desktop portal reads "no preference" as
/// light: a window manager that never sets one would turn the app light, so
/// only desktops whose settings do are followed.
pub fn states_a_preference(platform: Platform, desktop: &str) -> (r: bool)
    ensures
        r == prefers(platform, desktop@),
{
    match platform {
        Platform::Linux => {},
        _ => {
            return true;
        },
    }
    let all = text::chars_of(desktop);
    let names = text::split_all(all.as_slice(), ':');
    let ghost whole = text::pieces(desktop@, ':');
    let mut i: usize = 0;
    while i < names.len()
        invariant
            i <= names@.len(),
            names@.len() == whole.len(),
            whole == text::pieces(desktop@, ':'),
            forall|k: int| 0 <= k < names@.len() ==> (#[trigger] names@[k])@ == whole[k],
            forall|k: int|
                0 <= k < i ==> !has_setting(text::ascii_lowercase(#[trigger] whole[k])),
        decreases names@.len() - i,
    {
        let name = text::to_ascii_lowercase(names[i].as_slice());
        assert(name@ == text::ascii_lowercase(whole[i as int]));
        if sets_preference(name.as_slice()) {
            return true;
        }
        i += 1;
    }
    false
}

/// Where an Omarchy theme is, if one is installed in the home directory.
pub open spec fn theme_places(platform: Platform, home: PathView) -> Seq<PathView> {
    seq![
        path::joined(
            platform,
            home,
            seq![
                Part::Name(vstd::utf8::encode_utf8(".local"@)),
                Part::Name(vstd::utf8::encode_utf8("state"@)),
                Part::Name(vstd::utf8::encode_utf8("omarchy"@)),
                Part::Name(vstd::utf8::encode_utf8("current"@)),
            ],
        ),
        path::joined(
            platform,
            home,
            seq![
                Part::Name(vstd::utf8::encode_utf8(".config"@)),
                Part::Name(vstd::utf8::encode_utf8("omarchy"@)),
                Part::Name(vstd::utf8::encode_utf8("current"@)),
            ],
        ),
    ]
}

/// The component called `name`.
fn named(name: &str) -> (r: Component)
    ensures
        r@ == Part::Name(vstd::utf8::encode_utf8(name@)),
{
    Component::Normal(vstd::slice::slice_to_vec(name.as_bytes()))
}

/// Where an Omarchy theme is, if one is installed in `home`.
pub fn theme_paths(platform: Platform, home: &PathBuf) -> (r: Vec<PathBuf>)
    ensures
        r.deep_view() == theme_places(platform, home@),
{
    let state: Vec<Component> = vec![
        named(".local"),
        named("state"),
        named("omarchy"),
        named("current"),
    ];
    assert(state.deep_view() =~= seq![
        Part::Name(vstd::utf8::encode_utf8(".local"@)),
        Part::Name(vstd::utf8::encode_utf8("state"@)),
        Part::Name(vstd::utf8::encode_utf8("omarchy"@)),
        Part::Name(vstd::utf8::encode_utf8("current"@)),
    ]);
    let config: Vec<Component> = vec![named(".config"), named("omarchy"), named("current")];
    assert(config.deep_view() =~= seq![
        Part::Name(vstd::utf8::encode_utf8(".config"@)),
        Part::Name(vstd::utf8::encode_utf8("omarchy"@)),
        Part::Name(vstd::utf8::encode_utf8("current"@)),
    ]);
    let mut paths: Vec<PathBuf> = Vec::new();
    paths.push(home.join(platform, &state));
    paths.push(home.join(platform, &config));
    assert(paths.deep_view() =~= theme_places(platform, home@));
    paths
}

/// Whether the system appearance, rather than an Omarchy theme, decides the
/// colours: unless a theme is there at one of [`theme_paths`], on macOS and
/// Windows, and on a Linux desktop that states a preference.
pub fn follows_system(platform: Platform, desktop: &str, themed: bool) -> (r: bool)
    ensures
        r == (prefers(platform, desktop@) && !themed),
{
    states_a_preference(platform, desktop) && !themed
}

/// How a window looks.
#[derive(Clone, Copy, Debug, PartialEq, Eq, Structural)]
pub enum Appearance {
    Light,
    VibrantLight,
    Dark,
    VibrantDark,
}

/// The app's own colours.
#[derive(Clone, Copy, Debug, PartialEq, Eq, Structural)]
pub enum Palette {
    FlexokiLight,
    TokyoNight,
}

/// The palette for a window that looks this way.
pub fn palette(appearance: Appearance) -> (r: Palette)
    ensures
        r == match appearance {
            Appearance::Light | Appearance::VibrantLight => Palette::FlexokiLight,
            Appearance::Dark | Appearance::VibrantDark => Palette::TokyoNight,
        },
{
    match appearance {
        Appearance::Light | Appearance::VibrantLight => Palette::FlexokiLight,
        Appearance::Dark | Appearance::VibrantDark => Palette::TokyoNight,
    }
}

} // verus!
