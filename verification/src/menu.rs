//! The menu bar and the application-wide shortcuts.
//!
//! On macOS an app without them has an empty menu bar and no Cmd-Q. There is
//! no menu bar on Linux or Windows, so there the same actions get the
//! shortcuts their users expect, with ctrl, and nothing else.

use vstd::prelude::*;

use crate::platform::Platform;

verus! {

/// What a shortcut or a menu item does.
#[derive(Clone, Copy, Debug, PartialEq, Eq, Structural)]
pub enum MenuAction {
    /// Quit the application.
    Quit,
    /// Hide the application's windows.
    Hide,
    /// Hide every other application.
    HideOthers,
    /// Show every application again.
    ShowAll,
    /// Close the focused window, which quits: there is only one.
    CloseWindow,
    /// Scan the current root again.
    Rescan,
    /// Choose a directory to scan.
    OpenFolder,
    /// Reveal the tile a key acts on in Finder.
    ShowInFinder,
    /// Back through the directories visited.
    GoBack,
    /// Forward again, after going back.
    GoForward,
}

/// A shortcut.
#[derive(Clone, Copy, Debug)]
pub struct Shortcut {
    pub keys: &'static str,
    pub action: MenuAction,
}

/// What a [`Shortcut`] stands for.
pub struct ShortcutView {
    pub keys: Seq<char>,
    pub action: MenuAction,
}

impl View for Shortcut {
    type V = ShortcutView;

    open spec fn view(&self) -> ShortcutView {
        ShortcutView { keys: self.keys@, action: self.action }
    }
}

impl DeepView for Shortcut {
    type V = ShortcutView;

    open spec fn deep_view(&self) -> ShortcutView {
        self@
    }
}

/// One item of a menu.
#[derive(Clone, Copy, Debug)]
pub enum MenuItem {
    /// The submenu of services the system fills.
    Services(&'static str),
    Separator,
    Action(&'static str, MenuAction),
}

/// What a [`MenuItem`] stands for.
pub enum MenuItemView {
    Services(Seq<char>),
    Separator,
    Action(Seq<char>, MenuAction),
}

impl View for MenuItem {
    type V = MenuItemView;

    open spec fn view(&self) -> MenuItemView {
        match *self {
            MenuItem::Services(label) => MenuItemView::Services(label@),
            MenuItem::Separator => MenuItemView::Separator,
            MenuItem::Action(label, action) => MenuItemView::Action(label@, action),
        }
    }
}

impl DeepView for MenuItem {
    type V = MenuItemView;

    open spec fn deep_view(&self) -> MenuItemView {
        self@
    }
}

/// A menu of the menu bar.
#[derive(Debug)]
pub struct Menu {
    pub title: &'static str,
    pub items: Vec<MenuItem>,
}

/// What a [`Menu`] stands for.
pub struct MenuView {
    pub title: Seq<char>,
    pub items: Seq<MenuItemView>,
}

impl View for Menu {
    type V = MenuView;

    open spec fn view(&self) -> MenuView {
        MenuView { title: self.title@, items: self.items.deep_view() }
    }
}

impl DeepView for Menu {
    type V = MenuView;

    open spec fn deep_view(&self) -> MenuView {
        self@
    }
}

/// A shortcut.
pub open spec fn bound(keys: Seq<char>, action: MenuAction) -> ShortcutView {
    ShortcutView { keys, action }
}

/// The shortcuts of a platform.
pub open spec fn shortcuts_of(platform: Platform) -> Seq<ShortcutView> {
    if platform is MacOs {
        seq![
            bound("cmd-q"@, MenuAction::Quit),
            bound("cmd-h"@, MenuAction::Hide),
            bound("alt-cmd-h"@, MenuAction::HideOthers),
            bound("cmd-w"@, MenuAction::CloseWindow),
            bound("cmd-r"@, MenuAction::Rescan),
            bound("cmd-o"@, MenuAction::OpenFolder),
            bound("cmd-shift-r"@, MenuAction::ShowInFinder),
            bound("cmd-["@, MenuAction::GoBack),
            bound("cmd-]"@, MenuAction::GoForward),
        ]
    } else {
        seq![
            bound("ctrl-q"@, MenuAction::Quit),
            bound("ctrl-w"@, MenuAction::CloseWindow),
            bound("ctrl-o"@, MenuAction::OpenFolder),
            bound("ctrl-r"@, MenuAction::Rescan),
            bound("f5"@, MenuAction::Rescan),
            bound("ctrl-shift-r"@, MenuAction::ShowInFinder),
        ]
    }
}

/// The menus of the application itself.
pub open spec fn app_menu() -> MenuView {
    MenuView {
        title: "disktree"@,
        items: seq![
            MenuItemView::Services("Services"@),
            MenuItemView::Separator,
            MenuItemView::Action("Hide disktree"@, MenuAction::Hide),
            MenuItemView::Action("Hide Others"@, MenuAction::HideOthers),
            MenuItemView::Action("Show All"@, MenuAction::ShowAll),
            MenuItemView::Separator,
            MenuItemView::Action("Quit disktree"@, MenuAction::Quit),
        ],
    }
}

/// The menu of what is scanned.
pub open spec fn file_menu() -> MenuView {
    MenuView {
        title: "File"@,
        items: seq![
            MenuItemView::Action("Open Folder\u{2026}"@, MenuAction::OpenFolder),
            MenuItemView::Action("Show in Finder"@, MenuAction::ShowInFinder),
            MenuItemView::Separator,
            MenuItemView::Action("Rescan"@, MenuAction::Rescan),
            MenuItemView::Separator,
            MenuItemView::Action("Close Window"@, MenuAction::CloseWindow),
        ],
    }
}

/// The menu of the directories visited.
pub open spec fn go_menu() -> MenuView {
    MenuView {
        title: "Go"@,
        items: seq![
            MenuItemView::Action("Back"@, MenuAction::GoBack),
            MenuItemView::Action("Forward"@, MenuAction::GoForward),
        ],
    }
}

/// The menu bar of a platform: only macOS has one.
pub open spec fn menus_of(platform: Platform) -> Seq<MenuView> {
    if platform is MacOs {
        seq![app_menu(), file_menu(), go_menu()]
    } else {
        seq![]
    }
}

/// The shortcuts of `platform`.
pub fn shortcuts(platform: Platform) -> (r: Vec<Shortcut>)
    ensures
        r.deep_view() == shortcuts_of(platform),
{
    let list: Vec<Shortcut> = match platform {
        Platform::MacOs => vec![
            Shortcut { keys: "cmd-q", action: MenuAction::Quit },
            Shortcut { keys: "cmd-h", action: MenuAction::Hide },
            Shortcut { keys: "alt-cmd-h", action: MenuAction::HideOthers },
            Shortcut { keys: "cmd-w", action: MenuAction::CloseWindow },
            Shortcut { keys: "cmd-r", action: MenuAction::Rescan },
            Shortcut { keys: "cmd-o", action: MenuAction::OpenFolder },
            // Cmd-R is taken by Rescan, as in a browser.
            Shortcut { keys: "cmd-shift-r", action: MenuAction::ShowInFinder },
            // Finder's and Safari's back and forward; alt-arrows work too.
            Shortcut { keys: "cmd-[", action: MenuAction::GoBack },
            Shortcut { keys: "cmd-]", action: MenuAction::GoForward },
        ],
        _ => vec![
            Shortcut { keys: "ctrl-q", action: MenuAction::Quit },
            Shortcut { keys: "ctrl-w", action: MenuAction::CloseWindow },
            Shortcut { keys: "ctrl-o", action: MenuAction::OpenFolder },
            Shortcut { keys: "ctrl-r", action: MenuAction::Rescan },
            Shortcut { keys: "f5", action: MenuAction::Rescan },
            Shortcut { keys: "ctrl-shift-r", action: MenuAction::ShowInFinder },
        ],
    };
    assert(list.deep_view() =~= shortcuts_of(platform));
    list
}

/// The menu bar of `platform`.
pub fn menus(platform: Platform) -> (r: Vec<Menu>)
    ensures
        r.deep_view() == menus_of(platform),
{
    let mut bar: Vec<Menu> = Vec::new();
    if let Platform::MacOs = platform {
        let app: Vec<MenuItem> = vec![
            MenuItem::Services("Services"),
            MenuItem::Separator,
            MenuItem::Action("Hide disktree", MenuAction::Hide),
            MenuItem::Action("Hide Others", MenuAction::HideOthers),
            MenuItem::Action("Show All", MenuAction::ShowAll),
            MenuItem::Separator,
            MenuItem::Action("Quit disktree", MenuAction::Quit),
        ];
        assert(app.deep_view() =~= app_menu().items);
        let file: Vec<MenuItem> = vec![
            MenuItem::Action("Open Folder\u{2026}", MenuAction::OpenFolder),
            MenuItem::Action("Show in Finder", MenuAction::ShowInFinder),
            MenuItem::Separator,
            MenuItem::Action("Rescan", MenuAction::Rescan),
            MenuItem::Separator,
            MenuItem::Action("Close Window", MenuAction::CloseWindow),
        ];
        assert(file.deep_view() =~= file_menu().items);
        let go: Vec<MenuItem> = vec![
            MenuItem::Action("Back", MenuAction::GoBack),
            MenuItem::Action("Forward", MenuAction::GoForward),
        ];
        assert(go.deep_view() =~= go_menu().items);
        bar.push(Menu { title: "disktree", items: app });
        bar.push(Menu { title: "File", items: file });
        bar.push(Menu { title: "Go", items: go });
    }
    assert(bar.deep_view() =~= menus_of(platform));
    bar
}

/// What the application does about an action by itself; the rest belongs to
/// the window, which owns the scan and the selection.
#[derive(Clone, Copy, Debug, PartialEq, Eq, Structural)]
pub enum Response {
    Quit,
    CloseActiveWindow,
    Hide,
    HideOtherApps,
    UnhideOtherApps,
    LeaveToWindow,
}

/// What the application does about `action`. Hiding is for macOS alone.
pub fn response(platform: Platform, action: MenuAction) -> (r: Response)
    ensures
        r == match action {
            MenuAction::Quit => Response::Quit,
            MenuAction::CloseWindow => Response::CloseActiveWindow,
            MenuAction::Hide if platform is MacOs => Response::Hide,
            MenuAction::HideOthers if platform is MacOs => Response::HideOtherApps,
            MenuAction::ShowAll if platform is MacOs => Response::UnhideOtherApps,
            _ => Response::LeaveToWindow,
        },
{
    let macos: bool = match platform {
        Platform::MacOs => true,
        _ => false,
    };
    match action {
        MenuAction::Quit => Response::Quit,
        MenuAction::CloseWindow => Response::CloseActiveWindow,
        MenuAction::Hide if macos => Response::Hide,
        MenuAction::HideOthers if macos => Response::HideOtherApps,
        MenuAction::ShowAll if macos => Response::UnhideOtherApps,
        _ => Response::LeaveToWindow,
    }
}

/// Whether the application quits when a window closed and `left` remain: a
/// single-window utility has nothing left to show once its window is gone.
pub fn quits_on_close(left: usize) -> (r: bool)
    ensures
        r == (left == 0),
{
    left == 0
}

/// No two shortcuts of a platform have the same keys.
pub proof fn lemma_shortcuts_distinct(platform: Platform, i: int, j: int)
    requires
        0 <= i < j < shortcuts_of(platform).len(),
    ensures
        shortcuts_of(platform)[i].keys != shortcuts_of(platform)[j].keys,
{
    reveal_strlit("cmd-q");
    reveal_strlit("cmd-h");
    reveal_strlit("alt-cmd-h");
    reveal_strlit("cmd-w");
    reveal_strlit("cmd-r");
    reveal_strlit("cmd-o");
    reveal_strlit("cmd-shift-r");
    reveal_strlit("cmd-[");
    reveal_strlit("cmd-]");
    reveal_strlit("ctrl-q");
    reveal_strlit("ctrl-w");
    reveal_strlit("ctrl-o");
    reveal_strlit("ctrl-r");
    reveal_strlit("f5");
    reveal_strlit("ctrl-shift-r");
    let a = shortcuts_of(platform)[i].keys;
    let b = shortcuts_of(platform)[j].keys;
    if platform is MacOs {
        assert(a.len() != b.len() || a[4] != b[4]);
    } else {
        assert(a.len() != b.len() || a[5] != b[5]);
    }
}

/// Every platform can quit, close, open, rescan and reveal by shortcut.
pub proof fn lemma_shortcuts_cover(platform: Platform, action: MenuAction)
    requires
        action is Quit || action is CloseWindow || action is OpenFolder || action is Rescan
            || action is ShowInFinder,
    ensures
        exists|i: int|
            0 <= i < shortcuts_of(platform).len() && (#[trigger] shortcuts_of(platform)[i]).action
                == action,
{
    let all = shortcuts_of(platform);
    if platform is MacOs {
        assert(all[0].action is Quit && all[3].action is CloseWindow && all[4].action is Rescan
            && all[5].action is OpenFolder && all[6].action is ShowInFinder);
    } else {
        assert(all[0].action is Quit && all[1].action is CloseWindow && all[2].action is OpenFolder
            && all[3].action is Rescan && all[5].action is ShowInFinder);
    }
}

} // verus!
