use quickfox_core::ignore_rules::{ignore_decision, IgnoreLayer, IgnoreLayers, IgnoreMatch};

fn layer(root: &str, source: &str, lines: &[&str]) -> IgnoreLayer {
    IgnoreLayer {
        root: root.to_owned(),
        source: source.to_owned(),
        lines: lines.iter().map(|line| (*line).to_owned()).collect(),
    }
}

fn layers(dot: Vec<IgnoreLayer>, git: Vec<IgnoreLayer>, exclude: Vec<IgnoreLayer>, global: Option<IgnoreLayer>) -> IgnoreLayers {
    IgnoreLayers { dot_ignore: dot, git_ignore: git, git_exclude: exclude, global }
}

#[test]
fn gitignore_pattern_ignores_matching_files_only() {
    let rules = layers(Vec::new(), vec![layer("/repo", "/repo/.gitignore", &["*.log"])], Vec::new(), None);
    assert_eq!(ignore_decision(&rules, "/repo/build.log", false), Ok(IgnoreMatch::Ignore));
    assert_eq!(ignore_decision(&rules, "/repo/readme.md", false), Ok(IgnoreMatch::NoMatch));
}

#[test]
fn dot_ignore_takes_precedence_over_gitignore() {
    let rules = layers(
        vec![layer("/repo", "/repo/.ignore", &["!keep.log"])],
        vec![layer("/repo", "/repo/.gitignore", &["*.log"])],
        Vec::new(),
        None,
    );
    assert_eq!(ignore_decision(&rules, "/repo/keep.log", false), Ok(IgnoreMatch::Whitelist));
    assert_eq!(ignore_decision(&rules, "/repo/other.log", false), Ok(IgnoreMatch::Ignore));
}

#[test]
fn innermost_gitignore_decides_before_outer_ones() {
    let rules = layers(
        Vec::new(),
        vec![
            layer("/repo", "/repo/.gitignore", &["*.tmp"]),
            layer("/repo/sub", "/repo/sub/.gitignore", &["!keep.tmp"]),
        ],
        Vec::new(),
        None,
    );
    assert_eq!(ignore_decision(&rules, "/repo/sub/keep.tmp", false), Ok(IgnoreMatch::Whitelist));
    assert_eq!(ignore_decision(&rules, "/repo/sub/drop.tmp", false), Ok(IgnoreMatch::Ignore));
}

#[test]
fn git_exclude_and_global_apply_only_when_project_files_are_silent() {
    let rules = layers(
        Vec::new(),
        vec![layer("/repo", "/repo/.gitignore", &["!notes.txt"])],
        vec![layer("/repo", "/repo/.git/info/exclude", &["*.txt"])],
        Some(layer("/", "/home/me/.config/git/ignore", &["*.bak"])),
    );
    assert_eq!(ignore_decision(&rules, "/repo/notes.txt", false), Ok(IgnoreMatch::Whitelist));
    assert_eq!(ignore_decision(&rules, "/repo/todo.txt", false), Ok(IgnoreMatch::Ignore));
    assert_eq!(ignore_decision(&rules, "/repo/old.bak", false), Ok(IgnoreMatch::Ignore));
    assert_eq!(ignore_decision(&rules, "/repo/main.rs", false), Ok(IgnoreMatch::NoMatch));
}

#[test]
fn directory_only_patterns_need_a_directory() {
    let rules = layers(Vec::new(), vec![layer("/repo", "/repo/.gitignore", &["target/"])], Vec::new(), None);
    assert_eq!(ignore_decision(&rules, "/repo/target", true), Ok(IgnoreMatch::Ignore));
    assert_eq!(ignore_decision(&rules, "/repo/target", false), Ok(IgnoreMatch::NoMatch));
}

#[test]
fn an_invalid_ignore_file_is_reported() {
    let rules = layers(Vec::new(), vec![layer("/repo", "/repo/.gitignore", &["a{b"])], Vec::new(), None);
    let result = ignore_decision(&rules, "/repo/a", false);
    assert_eq!(result.map_err(|error| error.source), Err("/repo/.gitignore".to_owned()));
}
