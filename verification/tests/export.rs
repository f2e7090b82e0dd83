//! The list and the prompt.

use disktree::export::{self, agent_prompt, delete_list, Line};
use disktree::path::PathBuf;
use disktree::platform::Platform;
use disktree::removal::Target;
use disktree::space::SpaceInfo;

fn target(path: &str, bytes: u64, is_dir: bool) -> Target {
    Target {
        path: PathBuf::of(path),
        bytes,
        is_dir,
        hidden: false,
    }
}

#[test]
fn the_list_is_one_path_per_line() {
    let targets = [
        target("/home/me/src/old/target", 5 << 30, true),
        target("/home/me/Downloads/big.iso", 4 << 30, false),
    ];
    assert_eq!(
        delete_list(Platform::Linux, &targets),
        "/home/me/src/old/target\n/home/me/Downloads/big.iso\n"
    );
}

#[test]
fn a_name_with_a_newline_cannot_smuggle_in_a_path() {
    let targets = [target("/tmp/x\n/home/me", 1, true)];
    let list = delete_list(Platform::Linux, &targets);
    assert_eq!(list.lines().count(), 1);
    assert!(list.starts_with("# left out"), "{list}");
    assert!(!list.lines().any(|line| line == "/home/me"));

    let prompt = agent_prompt(Platform::Linux, &targets, &PathBuf::of("/tmp"), None);
    assert!(!prompt.lines().any(|line| line.starts_with("/home/me")));
    assert!(prompt.contains("escaped, find by hand: /tmp/x\\n/home/me"));
}

#[test]
fn the_prompt_lists_every_path_with_its_size_and_the_rules() {
    let targets = [
        target("/home/me/src/old/target", 5 << 30, true),
        target("/home/me/Downloads/big.iso", 4 << 30, false),
    ];
    let space = SpaceInfo {
        total: 500 << 30,
        free: 12 << 30,
        available: 10 << 30,
    };
    let prompt = agent_prompt(
        Platform::Linux,
        &targets,
        &PathBuf::of("/home/me"),
        Some(space),
    );
    assert!(
        prompt.contains("look through /home/me and picked"),
        "{prompt}"
    );
    assert!(prompt.contains("9.0 GiB in all"), "{prompt}");
    assert!(prompt.contains("10 GiB available of 500 GiB"), "{prompt}");
    assert!(prompt.contains("- /home/me/src/old/target  (5.0 GiB, directory)"));
    assert!(prompt.contains("- /home/me/Downloads/big.iso  (4.0 GiB, file)"));
    assert!(prompt.contains("git status"));
    assert!(prompt.contains("Do not delete anything else"));
}

#[test]
fn control_characters_are_escaped_each_in_its_way() {
    let escaped = |text: &str| match export::line(Platform::Linux, &PathBuf::of(text)) {
        Line::Escaped(line) => line,
        Line::Plain(line) => panic!("{line} is plain"),
    };
    assert_eq!(escaped("/a\tb\rc\nd"), "/a\\tb\\rc\\nd");
    assert_eq!(escaped("/a\u{1b}b"), "/a\\u{1b}b");
    assert_eq!(escaped("/a\u{7f}\u{85}"), "/a\\u{7f}\\u{85}");
    assert!(matches!(export::line(Platform::Linux, &PathBuf::of("/é b")), Line::Plain(text) if text == "/é b"));
    let odd = export::line(Platform::Linux, &PathBuf::unix(b"/\xff\n".to_vec()));
    assert_eq!(odd.text(), "/\u{fffd}\\n");
}

#[test]
fn a_prompt_is_lines_of_its_own_whatever_the_names() {
    let targets = [
        target("/tmp/a\nb", 1, false),
        target("/tmp/c", 2, false),
        target("/tmp/\u{85}d", 3, true),
    ];
    for platform in [Platform::Linux, Platform::MacOs, Platform::Windows] {
        let prompt = agent_prompt(platform, &targets, &PathBuf::of("/tmp\n/x"), None);
        let list: Vec<&str> = prompt
            .lines()
            .filter(|line| line.starts_with("- "))
            .collect();
        assert_eq!(list.len(), 3, "{prompt}");
        assert!(!prompt.contains("\n/x"), "{prompt}");
    }
}
