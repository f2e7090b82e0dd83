//! What holds of how the app sits on a desktop.

use vstd::prelude::*;

use crate::access;
use crate::access::Opened;
use crate::appearance;
use crate::appearance::{Appearance, Palette};
use crate::laws::spelling;
use crate::menu;
use crate::menu::{MenuAction, MenuItemView, Response};
use crate::path;
use crate::path::{Part, PathBuf, PathView};
use crate::platform::Platform;
use crate::text;

verus! {

/// macOS and Windows always state a preference; a Linux desktop does exactly
/// where one of the names with colons between is, in whatever case, one of
/// those whose settings do.
pub proof fn lemma_prefers_exactly(platform: Platform, desktop: Seq<char>)
    ensures
        !(platform is Linux) ==> appearance::prefers(platform, desktop),
        platform is Linux ==> (appearance::prefers(platform, desktop) <==> exists|i: int|
            {
                let name = spelling::small(#[trigger] text::pieces(desktop, ':')[i]);
                &&& 0 <= i < text::pieces(desktop, ':').len()
                &&& (name == "gnome"@ || name == "kde"@ || name == "ubuntu"@ || name == "unity"@
                    || name == "pantheon"@ || name == "cinnamon"@)
            }),
{
    let all = text::pieces(desktop, ':');
    assert forall|i: int| 0 <= i < all.len() implies text::ascii_lowercase(#[trigger] all[i])
        == spelling::small(all[i]) by {
        assert(text::ascii_lowercase(all[i]) =~= spelling::small(all[i]));
    }
}

/// The system decides the colours exactly where it states a preference and
/// no theme is installed.
pub proof fn lemma_follows(platform: Platform, desktop: &str, themed: bool, follows: bool)
    requires
        call_ensures(appearance::follows_system, (platform, desktop, themed), follows),
    ensures
        themed ==> !follows,
        !themed ==> follows == appearance::prefers(platform, desktop@),
{
}

/// A light window gets the light palette and a dark one the dark, vibrant or
/// not.
pub proof fn lemma_palette(appearance: Appearance, palette: Palette)
    requires
        call_ensures(appearance::palette, (appearance,), palette),
    ensures
        palette is FlexokiLight <==> appearance is Light || appearance is VibrantLight,
        palette is TokyoNight <==> appearance is Dark || appearance is VibrantDark,
{
}

/// The components called by these words.
pub open spec fn called(words: Seq<Seq<char>>) -> Seq<Part> {
    words.map_values(|word: Seq<char>| Part::Name(vstd::utf8::encode_utf8(word)))
}

/// On Unix a theme is looked for in two places below the home directory, the
/// state directory first.
pub proof fn lemma_theme_places(platform: Platform, home: PathView)
    requires
        !(platform is Windows),
    ensures
        ({
            let places = appearance::theme_places(platform, home);
            &&& places.len() == 2
            &&& places[0].parts == home.parts + called(
                seq![".local"@, "state"@, "omarchy"@, "current"@],
            )
            &&& places[1].parts == home.parts + called(seq![".config"@, "omarchy"@, "current"@])
        }),
{
    let places = appearance::theme_places(platform, home);
    assert(places[0].parts =~= home.parts + called(
        seq![".local"@, "state"@, "omarchy"@, "current"@],
    ));
    assert(places[1].parts =~= home.parts + called(seq![".config"@, "omarchy"@, "current"@]));
}

/// Access to the whole disk is granted where the privacy database opens and
/// refused where that is not permitted; elsewhere than on macOS, or where it
/// fails otherwise, nothing is known.
pub proof fn lemma_access(platform: Platform, opened: Opened, access: Option<bool>)
    requires
        call_ensures(access::full_disk_access, (platform, opened), access),
    ensures
        access == Some(true) <==> platform is MacOs && opened is Yes,
        access == Some(false) <==> platform is MacOs && opened is PermissionDenied,
        access is None <==> !(platform is MacOs) || opened is OtherError,
{
}

/// The privacy database is in the home directory's library, and the home
/// directory is named by the variable of its platform.
pub proof fn lemma_database_place(home: PathView, platform: Platform)
    ensures
        access::database_place(home).parts == home.parts + called(
            seq!["Library"@, "Application Support"@, "com.apple.TCC"@, "TCC.db"@],
        ),
        access::home_name(platform) == if platform is Windows {
            "USERPROFILE"@
        } else {
            "HOME"@
        },
{
    assert(access::database_place(home).parts =~= home.parts + called(
        seq!["Library"@, "Application Support"@, "com.apple.TCC"@, "TCC.db"@],
    ));
}

/// The application itself quits and closes on every platform, hides and
/// shows applications on macOS alone, and leaves everything else to the
/// window.
pub proof fn lemma_response(platform: Platform, action: MenuAction, response: Response)
    requires
        call_ensures(menu::response, (platform, action), response),
    ensures
        response is Quit <==> action is Quit,
        response is CloseActiveWindow <==> action is CloseWindow,
        response is Hide <==> platform is MacOs && action is Hide,
        response is HideOtherApps <==> platform is MacOs && action is HideOthers,
        response is UnhideOtherApps <==> platform is MacOs && action is ShowAll,
{
}

/// The application quits when its last window closed, and not before.
pub proof fn lemma_quits(left: usize, quits: bool)
    requires
        call_ensures(menu::quits_on_close, (left,), quits),
    ensures
        quits <==> left == 0,
{
}

/// An item that does `action`.
pub open spec fn does(item: MenuItemView, action: MenuAction) -> bool {
    item matches MenuItemView::Action(_, doing) && doing == action
}

/// Only macOS has a menu bar, and there every action is in a menu.
pub proof fn lemma_menus(platform: Platform, action: MenuAction)
    ensures
        !(platform is MacOs) ==> menu::menus_of(platform).len() == 0,
        platform is MacOs ==> exists|m: int, i: int|
            {
                &&& 0 <= m < menu::menus_of(platform).len()
                &&& 0 <= i < menu::menus_of(platform)[m].items.len()
                &&& does(#[trigger] menu::menus_of(platform)[m].items[i], action)
            },
{
    let menus = menu::menus_of(platform);
    if platform is MacOs {
        match action {
            MenuAction::Quit => {
                assert(does(menus[0].items[6], action));
            },
            MenuAction::Hide => {
                assert(does(menus[0].items[2], action));
            },
            MenuAction::HideOthers => {
                assert(does(menus[0].items[3], action));
            },
            MenuAction::ShowAll => {
                assert(does(menus[0].items[4], action));
            },
            MenuAction::CloseWindow => {
                assert(does(menus[1].items[5], action));
            },
            MenuAction::Rescan => {
                assert(does(menus[1].items[3], action));
            },
            MenuAction::OpenFolder => {
                assert(does(menus[1].items[0], action));
            },
            MenuAction::ShowInFinder => {
                assert(does(menus[1].items[1], action));
            },
            MenuAction::GoBack => {
                assert(does(menus[2].items[0], action));
            },
            MenuAction::GoForward => {
                assert(does(menus[2].items[1], action));
            },
        }
    }
}

/// The keys of each action, by the platform's own modifier.
pub proof fn lemma_keys(platform: Platform)
    ensures
        ({
            let all = menu::shortcuts_of(platform);
            let has = |keys: Seq<char>, action: MenuAction|
                all.contains(menu::ShortcutView { keys, action });
            &&& platform is MacOs ==> {
                &&& all.len() == 9
                &&& has("cmd-q"@, MenuAction::Quit)
                &&& has("cmd-h"@, MenuAction::Hide)
                &&& has("alt-cmd-h"@, MenuAction::HideOthers)
                &&& has("cmd-w"@, MenuAction::CloseWindow)
                &&& has("cmd-r"@, MenuAction::Rescan)
                &&& has("cmd-o"@, MenuAction::OpenFolder)
                &&& has("cmd-shift-r"@, MenuAction::ShowInFinder)
                &&& has("cmd-["@, MenuAction::GoBack)
                &&& has("cmd-]"@, MenuAction::GoForward)
            }
            &&& !(platform is MacOs) ==> {
                &&& all.len() == 6
                &&& has("ctrl-q"@, MenuAction::Quit)
                &&& has("ctrl-w"@, MenuAction::CloseWindow)
                &&& has("ctrl-o"@, MenuAction::OpenFolder)
                &&& has("ctrl-r"@, MenuAction::Rescan)
                &&& has("f5"@, MenuAction::Rescan)
                &&& has("ctrl-shift-r"@, MenuAction::ShowInFinder)
            }
        }),
{
    let all = menu::shortcuts_of(platform);
    assert(forall|i: int| 0 <= i < all.len() ==> all.contains(#[trigger] all[i]));
    if platform is MacOs {
        assert(all.contains(all[0]) && all.contains(all[1]) && all.contains(all[2])
            && all.contains(all[3]) && all.contains(all[4]) && all.contains(all[5])
            && all.contains(all[6]) && all.contains(all[7]) && all.contains(all[8]));
    } else {
        assert(all.contains(all[0]) && all.contains(all[1]) && all.contains(all[2])
            && all.contains(all[3]) && all.contains(all[4]) && all.contains(all[5]));
    }
}

/// The home directory is the path its variable spells, where it is set.
pub proof fn lemma_home(value: Option<Vec<u8>>, home: Option<PathBuf>)
    requires
        call_ensures(access::home_dir, (value,), home),
    ensures
        home is Some <==> value is Some,
        home matches Some(home) ==> home@.text == value->0@ && home@.parts == path::unix_parts(
            value->0@,
        ),
{
}

/// Where full disk access is granted in the settings.
pub proof fn lemma_settings()
    ensures
        access::FULL_DISK_ACCESS_SETTINGS@
            == "x-apple.systempreferences:com.apple.preference.security?Privacy_AllFiles"@,
{
}

} // verus!
