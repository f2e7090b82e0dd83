//! Access, appearance, menus and bundles.

use disktree::access::{
    full_disk_access, home_dir, home_variable, privacy_database, Opened, FULL_DISK_ACCESS_SETTINGS,
};
use disktree::appearance::{
    follows_system, palette, states_a_preference, theme_paths, Appearance, Palette,
};
use disktree::bundle::{
    bundle, notarize_call, parse, plist, step_failed, NotaryEnvironment, Step, DEPLOYMENT_TARGET,
    EXECUTABLE,
};
use disktree::menu::{
    menus, quits_on_close, response, shortcuts, MenuAction, MenuItem, Response,
};
use disktree::path::PathBuf;
use disktree::platform::Platform;

#[test]
fn a_linux_desktop_is_followed_only_if_it_states_a_preference() {
    for platform in [Platform::Linux, Platform::MacOs, Platform::Windows] {
        let native = platform != Platform::Linux;
        assert!(states_a_preference(platform, "ubuntu:GNOME"));
        assert!(states_a_preference(platform, "KDE"));
        assert_eq!(states_a_preference(platform, "Hyprland"), native);
        assert_eq!(states_a_preference(platform, ""), native);
    }
}

#[test]
fn a_theme_in_the_home_directory_comes_first() {
    assert!(follows_system(Platform::Linux, "GNOME", false));
    assert!(!follows_system(Platform::Linux, "GNOME", true));
    assert!(!follows_system(Platform::Linux, "Hyprland", false));
    assert!(!follows_system(Platform::MacOs, "", true));
    let places: Vec<String> = theme_paths(Platform::Linux, &PathBuf::of("/home/tobi"))
        .iter()
        .map(|place| place.display(Platform::Linux))
        .collect();
    assert_eq!(
        places,
        [
            "/home/tobi/.local/state/omarchy/current",
            "/home/tobi/.config/omarchy/current"
        ]
    );
    assert_eq!(palette(Appearance::Light), Palette::FlexokiLight);
    assert_eq!(palette(Appearance::VibrantLight), Palette::FlexokiLight);
    assert_eq!(palette(Appearance::Dark), Palette::TokyoNight);
    assert_eq!(palette(Appearance::VibrantDark), Palette::TokyoNight);
}

#[test]
fn only_macos_has_an_answer_and_a_missing_database_is_not_a_refusal() {
    assert_eq!(full_disk_access(Platform::MacOs, Opened::OtherError), None);
    for opened in [Opened::Yes, Opened::PermissionDenied, Opened::OtherError] {
        assert_eq!(full_disk_access(Platform::Linux, opened), None);
        assert_eq!(full_disk_access(Platform::Windows, opened), None);
    }
    assert_eq!(full_disk_access(Platform::MacOs, Opened::Yes), Some(true));
    assert_eq!(
        full_disk_access(Platform::MacOs, Opened::PermissionDenied),
        Some(false)
    );
}

#[test]
fn the_home_directory_is_named_by_a_variable() {
    assert_eq!(home_variable(Platform::Windows), "USERPROFILE");
    assert_eq!(home_variable(Platform::Linux), "HOME");
    assert_eq!(home_variable(Platform::MacOs), "HOME");
    assert_eq!(
        home_dir(Some(b"/home/tobi".to_vec())),
        Some(PathBuf::of("/home/tobi"))
    );
    assert_eq!(home_dir(None), None);
    assert_eq!(
        privacy_database(&PathBuf::of("/Users/tobi")).display(Platform::Linux),
        "/Users/tobi/Library/Application Support/com.apple.TCC/TCC.db"
    );
    assert!(FULL_DISK_ACCESS_SETTINGS.ends_with("Privacy_AllFiles"));
}

#[test]
fn every_menu_item_is_an_action_and_no_shortcut_is_used_twice() {
    for platform in [Platform::Linux, Platform::MacOs, Platform::Windows] {
        let keys = shortcuts(platform);
        for (at, one) in keys.iter().enumerate() {
            for other in &keys[at + 1..] {
                assert_ne!(one.keys, other.keys);
            }
        }
        assert!(keys.iter().any(|key| key.action == MenuAction::Quit));
    }
    let bar = menus(Platform::MacOs);
    assert!(bar[0]
        .items
        .iter()
        .any(|item| matches!(item, MenuItem::Action(_, MenuAction::Quit))));
    assert!(bar[0]
        .items
        .iter()
        .any(|item| matches!(item, MenuItem::Services("Services"))));
    assert!(menus(Platform::Linux).is_empty());
}

#[test]
fn the_application_answers_for_itself_and_leaves_the_rest() {
    assert_eq!(response(Platform::Linux, MenuAction::Quit), Response::Quit);
    assert_eq!(response(Platform::MacOs, MenuAction::Hide), Response::Hide);
    assert_eq!(
        response(Platform::Linux, MenuAction::Hide),
        Response::LeaveToWindow
    );
    assert_eq!(
        response(Platform::MacOs, MenuAction::ShowAll),
        Response::UnhideOtherApps
    );
    assert_eq!(
        response(Platform::MacOs, MenuAction::HideOthers),
        Response::HideOtherApps
    );
    assert_eq!(
        response(Platform::Windows, MenuAction::CloseWindow),
        Response::CloseActiveWindow
    );
    assert_eq!(
        response(Platform::MacOs, MenuAction::Rescan),
        Response::LeaveToWindow
    );
    assert!(quits_on_close(0));
    assert!(!quits_on_close(1));
}

fn args(list: &[&str]) -> Vec<String> {
    list.iter().map(ToString::to_string).collect()
}

#[test]
fn signing_is_ad_hoc_unless_an_identity_is_given() {
    let options = parse(&[]).expect("no options");
    assert!(options.identity.is_none() && !options.notarize);
    let options =
        parse(&args(&["--sign", "Developer ID Application: X"])).expect("an identity");
    assert_eq!(
        options.identity.as_deref(),
        Some("Developer ID Application: X")
    );
}

#[test]
fn notarizing_needs_a_real_signature() {
    let error = parse(&args(&["--notarize"])).expect_err("no identity");
    assert!(error.contains("--sign"), "{error}");
    assert!(
        parse(&args(&["--sign"])).is_err(),
        "an identity is required"
    );
    assert!(
        parse(&args(&["--sign", ""])).is_err(),
        "an empty identity is not one"
    );
    assert!(parse(&args(&["--sign", " \t"])).is_err(), "nor is a blank one");
    assert!(parse(&args(&["--what"])).is_err(), "an unknown option");
    let options = parse(&args(&["--notarize", "--sign", "X"])).expect("signed");
    assert!(options.notarize);
}

#[test]
fn the_plist_takes_the_version_wherever_it_is_named() {
    assert_eq!(
        plist("<a>@VERSION@</a><b>@VERSION@</b>@VERSION", "1.2.3"),
        "<a>1.2.3</a><b>1.2.3</b>@VERSION"
    );
}

#[test]
fn a_bundle_is_made_on_macos_step_by_step() {
    let root = PathBuf::of("/src/disktree");
    let made = |platform: Platform, list: &[&str]| {
        bundle(platform, &args(list), &root, "cargo", "1.2.3", "aarch64")
    };
    assert_eq!(
        made(Platform::Linux, &[]).expect_err("not macOS"),
        "the app bundle is built on macOS"
    );
    assert!(made(Platform::MacOs, &["--sign"]).is_err());
    let steps = made(Platform::MacOs, &[]).expect("steps");
    match &steps[0] {
        Step::Run(call) => {
            assert_eq!(call.program, "cargo");
            assert_eq!(call.deployment_target.as_deref(), Some(DEPLOYMENT_TARGET));
            assert_eq!(call.directory, Some(root.clone()));
            assert_eq!(
                call.arguments.last().map(|word| word.as_slice()),
                Some(b"/src/disktree/target".as_slice())
            );
        }
        other => panic!("expected the build, got {other:?}"),
    }
    assert!(matches!(
        &steps[1],
        Step::Clear(app) if app.display(Platform::Linux) == "/src/disktree/target/bundle/disktree.app"
    ));
    assert!(matches!(
        &steps[4],
        Step::Copy { to, .. } if to.file_name().map(|name| name.as_slice())
            == Some(EXECUTABLE.as_bytes())
    ));
    assert!(matches!(
        steps.last(),
        Some(Step::Report { zip, .. })
            if zip.display(Platform::Linux) == "/src/disktree/target/bundle/disktree-1.2.3-aarch64-macos.zip"
    ));
    assert!(!steps.iter().any(|step| matches!(step, Step::Notarize(_))));
    let signed = made(Platform::MacOs, &["--sign", "X", "--notarize"]).expect("steps");
    assert!(signed.iter().any(|step| matches!(step, Step::Notarize(_))));
    assert!(signed.len() > steps.len());
}

#[test]
fn credentials_come_from_the_environment() {
    let zip = PathBuf::of("/z.zip");
    let some = |text: &str| Some(text.to_string());
    let environment = |profile: Option<String>, key: Option<String>, id: Option<String>| {
        NotaryEnvironment {
            profile,
            key,
            key_id: id,
            issuer: None,
        }
    };
    let call = notarize_call(&zip, &environment(some("p"), None, None)).expect("a profile");
    assert_eq!(call.program, "xcrun");
    assert_eq!(call.arguments.last().map(|word| word.as_slice()), Some(b"p".as_slice()));
    let missing = |environment: NotaryEnvironment| {
        notarize_call(&zip, &environment).expect_err("something is missing")
    };
    assert!(missing(environment(None, None, None)).contains("NOTARY_KEY is not set"));
    assert!(missing(environment(None, some("k"), None)).contains("NOTARY_KEY_ID is not set"));
    assert!(
        missing(environment(None, some("k"), some("i"))).contains("NOTARY_ISSUER is not set")
    );
    let mut whole = environment(None, some("k"), some("i"));
    whole.issuer = some("s");
    assert_eq!(notarize_call(&zip, &whole).expect("a key").arguments.len(), 10);
}

#[test]
fn a_failed_step_says_what_it_could_not_do() {
    let path = || PathBuf::of("/x");
    let said = |step: Step| step_failed(&step, "broken");
    assert_eq!(said(Step::Clear(path())).as_deref(), Some("cannot clear /x: broken"));
    assert_eq!(said(Step::Create(path())).as_deref(), Some("cannot create /x: broken"));
    assert_eq!(
        said(Step::Copy { from: path(), to: PathBuf::of("/y") }).as_deref(),
        Some("cannot copy /x to /y: broken")
    );
    assert_eq!(said(Step::Replace(path())).as_deref(), Some("cannot replace /x: broken"));
    assert_eq!(said(Step::Notarize(path())), None);
}
