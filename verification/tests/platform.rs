use quickfox_core::platform::{
    CommandSafetyChecker, CommandSafetyDecision, DevelopmentToolAdapter, HotkeyKey, HotkeyModifier,
    HotkeyState, KeyPress, LauncherWindowEffect, LauncherWindowState, LinuxTerminalAdapter,
    MacosTerminalAdapter, OpenAdapter, OpenService, OpenTarget, PathAdapter, PlatformError,
    PlatformKind, PlatformResult, WakeShortcut, WindowsTerminalAdapter,
};

#[test]
fn path_adapter_uses_available_drives_as_windows_default_index_roots() {
    let adapter = PathAdapter::new(PlatformKind::Windows)
        .with_home_dir("/home/frank")
        .with_user_profile("C:\\Users\\Frank")
        .with_available_drive_roots(vec!["C:\\".to_owned(), "D:\\".to_owned()]);

    assert_eq!(
        adapter.default_index_roots(),
        vec!["C:\\".to_owned(), "D:\\".to_owned()]
    );
}

#[test]
fn path_adapter_falls_back_to_user_profile_without_windows_drives() {
    let adapter = PathAdapter::new(PlatformKind::Windows)
        .with_home_dir("/home/frank")
        .with_user_profile("C:\\Users\\Frank");

    assert_eq!(
        adapter.default_index_roots(),
        vec!["C:\\Users\\Frank".to_owned()]
    );
}

#[test]
fn path_adapter_uses_home_dir_as_linux_default_index_root() {
    let adapter = PathAdapter::new(PlatformKind::Linux).with_home_dir("/home/frank");

    assert_eq!(adapter.default_index_roots(), vec!["/home/frank".to_owned()]);
}

#[test]
fn path_adapter_uses_home_dir_as_macos_development_default_index_root() {
    let adapter = PathAdapter::new(PlatformKind::Macos).with_home_dir("/Users/frank");

    assert_eq!(adapter.default_index_roots(), vec!["/Users/frank".to_owned()]);
}

#[derive(Default)]
struct RecordingOpenAdapter {
    opened_files: Vec<String>,
    opened_directories: Vec<String>,
    opened_containing_folders: Vec<String>,
    opened_urls: Vec<String>,
}

impl OpenAdapter for RecordingOpenAdapter {
    fn open_file(&mut self, path: &str) -> PlatformResult {
        self.opened_files.push(path.to_owned());
        Ok(())
    }

    fn open_directory(&mut self, path: &str) -> PlatformResult {
        self.opened_directories.push(path.to_owned());
        Ok(())
    }

    fn open_containing_folder(&mut self, path: &str) -> PlatformResult {
        self.opened_containing_folders.push(path.to_owned());
        Ok(())
    }

    fn open_url(&mut self, url: &str) -> PlatformResult {
        self.opened_urls.push(url.to_owned());
        Ok(())
    }
}

#[test]
fn open_service_routes_file_directory_containing_folder_and_url_to_adapter() {
    let mut adapter = RecordingOpenAdapter::default();
    let mut service = OpenService::new(&mut adapter);

    service.open(OpenTarget::File("/tmp/readme.md".to_owned())).unwrap();
    service.open(OpenTarget::Directory("/tmp/docs".to_owned())).unwrap();
    service
        .open(OpenTarget::ContainingFolder("/tmp/readme.md".to_owned()))
        .unwrap();
    service
        .open(OpenTarget::Url("https://example.com".to_owned()))
        .unwrap();

    assert_eq!(adapter.opened_files, ["/tmp/readme.md"]);
    assert_eq!(adapter.opened_directories, ["/tmp/docs"]);
    assert_eq!(adapter.opened_containing_folders, ["/tmp/readme.md"]);
    assert_eq!(adapter.opened_urls, ["https://example.com"]);
}

#[test]
fn windows_terminal_adapter_builds_wt_command() {
    let command = WindowsTerminalAdapter.build_command("git status").unwrap();

    assert_eq!(command.program, "wt.exe");
    assert_eq!(
        command.args,
        vec!["cmd.exe".to_owned(), "/C".to_owned(), "git status".to_owned()]
    );
}

#[test]
fn development_tool_adapter_prefers_configured_tool_when_available() {
    let adapter = DevelopmentToolAdapter::new(vec!["cursor".to_owned()]);
    let command = adapter
        .build_command("/tmp/project", &["code", "cursor"])
        .unwrap();

    assert_eq!(command.program, "cursor");
    assert_eq!(
        command.args,
        vec!["--reuse-window".to_owned(), "/tmp/project".to_owned()]
    );
}

#[test]
fn development_tool_adapter_falls_back_to_code_or_xdg_open() {
    let adapter = DevelopmentToolAdapter::new(Vec::new());
    let code = adapter.build_command("/tmp/project", &["code"]).unwrap();
    let xdg = adapter.build_command("/tmp/project", &["xdg-open"]).unwrap();

    assert_eq!(code.program, "code");
    assert_eq!(xdg.program, "xdg-open");
    assert_eq!(xdg.args, vec!["/tmp/project".to_owned()]);
}

#[test]
fn linux_terminal_adapter_uses_configured_terminal_when_available() {
    let adapter = LinuxTerminalAdapter::new(vec!["konsole".to_owned()]);
    let command = adapter
        .build_command("git status", &["gnome-terminal", "konsole", "xterm"])
        .unwrap();

    assert_eq!(command.program, "konsole");
    assert_eq!(
        command.args,
        vec![
            "-e".to_owned(),
            "sh".to_owned(),
            "-lc".to_owned(),
            "git status".to_owned()
        ]
    );
}

#[test]
fn macos_terminal_adapter_builds_osascript_command() {
    let command = MacosTerminalAdapter
        .build_command("git status && echo \"ok\"")
        .unwrap();

    assert_eq!(command.program, "osascript");
    assert_eq!(command.args[0], "-e");
    assert!(command.args[1].contains("tell application \"Terminal\""));
    assert!(command.args[1].contains("git status && echo \\\"ok\\\""));
}

#[test]
fn linux_terminal_adapter_falls_back_in_order() {
    let adapter = LinuxTerminalAdapter::new(Vec::new());
    let command = adapter
        .build_command("git status", &["xterm", "gnome-terminal"])
        .unwrap();

    assert_eq!(command.program, "gnome-terminal");
    assert_eq!(
        command.args,
        vec![
            "--".to_owned(),
            "sh".to_owned(),
            "-lc".to_owned(),
            "git status".to_owned()
        ]
    );
}

#[test]
fn command_safety_allows_ordinary_commands_with_confirmation() {
    let checker = CommandSafetyChecker;

    assert_eq!(
        checker.check("git status"),
        CommandSafetyDecision::AllowWithConfirmation
    );
}

#[test]
fn command_safety_blocks_obviously_destructive_commands() {
    let checker = CommandSafetyChecker;

    assert_eq!(
        checker.check("rm -rf /"),
        CommandSafetyDecision::Blocked {
            reason: "命令会递归删除根目录".to_owned()
        }
    );
}

#[test]
fn command_safety_requires_strong_confirmation_for_risky_commands() {
    let checker = CommandSafetyChecker;

    assert_eq!(
        checker.check("sudo apt update"),
        CommandSafetyDecision::RequireStrongConfirmation {
            reason: "命令会提升权限或修改系统状态".to_owned()
        }
    );
}

#[test]
fn hotkey_state_detects_double_shift_within_window() {
    let mut state = HotkeyState::default();

    assert!(!state.register_key_press(KeyPress::KeyDown(HotkeyKey::Shift), 1_000));
    assert!(state.register_key_press(KeyPress::KeyDown(HotkeyKey::Shift), 1_300));
}

#[test]
fn hotkey_state_ignores_slow_or_interrupted_shift_presses() {
    let mut state = HotkeyState::default();

    assert!(!state.register_key_press(KeyPress::KeyDown(HotkeyKey::Shift), 1_000));
    assert!(!state.register_key_press(KeyPress::KeyDown(HotkeyKey::Shift), 2_000));
    assert!(!state.register_key_press(KeyPress::KeyDown(HotkeyKey::Other), 2_100));
    assert!(!state.register_key_press(KeyPress::KeyDown(HotkeyKey::Shift), 2_200));
}

#[test]
fn wake_shortcut_parses_double_shift_and_chords() {
    assert_eq!(WakeShortcut::parse("Shift+Shift"), Some(WakeShortcut::DoubleShift));
    assert_eq!(
        WakeShortcut::parse("Control+Space"),
        Some(WakeShortcut::Chord {
            modifiers: vec![HotkeyModifier::Control],
            key: HotkeyKey::Space,
        })
    );
    assert_eq!(
        WakeShortcut::parse("Command+Shift+K").map(|shortcut| shortcut.display_label()),
        Some("Command+Shift+K".to_owned())
    );
}

#[test]
fn wake_shortcut_rejects_empty_or_bare_modifier_shortcuts() {
    assert_eq!(WakeShortcut::parse(""), None);
    assert_eq!(WakeShortcut::parse("Shift"), None);
    assert_eq!(WakeShortcut::parse("Control+Alt"), None);
    assert_eq!(WakeShortcut::parse("Space"), None);
}

#[test]
fn hotkey_state_detects_configured_chord() {
    let mut state = HotkeyState::with_shortcut(WakeShortcut::Chord {
        modifiers: vec![HotkeyModifier::Control],
        key: HotkeyKey::Space,
    });

    assert!(!state.register_key_press(KeyPress::KeyDown(HotkeyKey::Control), 1_000));
    assert!(state.register_key_press(KeyPress::KeyDown(HotkeyKey::Space), 1_010));
    assert!(!state.register_key_press(KeyPress::KeyUp(HotkeyKey::Control), 1_020));
    assert!(!state.register_key_press(KeyPress::KeyDown(HotkeyKey::Space), 1_030));
}

#[test]
fn hotkey_state_ignores_chord_after_modifier_timeout() {
    let mut state = HotkeyState::with_shortcut(WakeShortcut::Chord {
        modifiers: vec![HotkeyModifier::Shift],
        key: HotkeyKey::Space,
    });

    assert!(!state.register_key_press(KeyPress::KeyDown(HotkeyKey::Shift), 1_000));
    assert!(!state.register_key_press(KeyPress::KeyDown(HotkeyKey::Space), 1_700));
}

#[test]
fn hotkey_state_clears_chord_after_interrupted_typing() {
    let mut state = HotkeyState::with_shortcut(WakeShortcut::Chord {
        modifiers: vec![HotkeyModifier::Shift],
        key: HotkeyKey::Space,
    });

    assert!(!state.register_key_press(KeyPress::KeyDown(HotkeyKey::Shift), 1_000));
    assert!(!state.register_key_press(KeyPress::KeyDown(HotkeyKey::Character('A')), 1_010));
    assert!(!state.register_key_press(KeyPress::KeyDown(HotkeyKey::Space), 1_020));
}

#[test]
fn hotkey_state_consumes_chord_after_trigger() {
    let mut state = HotkeyState::with_shortcut(WakeShortcut::Chord {
        modifiers: vec![HotkeyModifier::Shift],
        key: HotkeyKey::Space,
    });

    assert!(!state.register_key_press(KeyPress::KeyDown(HotkeyKey::Shift), 1_000));
    assert!(state.register_key_press(KeyPress::KeyDown(HotkeyKey::Space), 1_010));
    assert!(!state.register_key_press(KeyPress::KeyDown(HotkeyKey::Space), 1_020));
}

#[test]
fn launcher_window_state_tracks_show_and_hide() {
    let mut window = LauncherWindowState::default();

    window.show();
    assert!(window.is_visible());

    window.hide_window();
    assert!(!window.is_visible());
}

#[test]
fn launcher_window_state_toggles_double_shift_visibility_and_focus() {
    let mut window = LauncherWindowState::default();

    assert_eq!(window.toggle_for_global_hotkey(), LauncherWindowEffect::ShowAndFocus);
    assert!(window.is_visible());
    assert!(window.is_focused());

    assert_eq!(window.toggle_for_global_hotkey(), LauncherWindowEffect::Hide);
    assert!(!window.is_visible());

    window.mark_backgrounded();
    assert_eq!(window.toggle_for_global_hotkey(), LauncherWindowEffect::ShowAndFocus);
    assert!(window.is_visible());
    assert!(window.is_focused());
}

#[test]
fn terminal_adapters_report_when_no_terminal_is_available() {
    let adapter = LinuxTerminalAdapter::new(Vec::new());
    assert_eq!(
        adapter.build_command("ls", &["unknown-term"]),
        Err(PlatformError::NoTerminalAvailable)
    );
}

#[test]
fn command_safety_matches_after_trimming_and_lowercasing() {
    let checker = CommandSafetyChecker;
    assert_eq!(
        checker.check("  RM -RF /*  "),
        CommandSafetyDecision::Blocked {
            reason: "命令会递归删除根目录".to_owned()
        }
    );
    assert_eq!(
        checker.check("echo ok;MKFS.ext4 /dev/sda"),
        CommandSafetyDecision::AllowWithConfirmation
    );
    assert_eq!(
        checker.check("echo ok && mkfs.ext4 /dev/sda"),
        CommandSafetyDecision::RequireStrongConfirmation {
            reason: "命令会提升权限或修改系统状态".to_owned()
        }
    );
}

#[test]
fn wake_shortcut_labels_double_shift() {
    assert_eq!(WakeShortcut::DoubleShift.display_label(), "Shift+Shift");
}

#[test]
fn shortcut_labels_parse_back_to_the_same_shortcut() {
    let shortcuts = vec![
        WakeShortcut::DoubleShift,
        WakeShortcut::Chord { modifiers: vec![HotkeyModifier::Command], key: HotkeyKey::Character('K') },
        WakeShortcut::Chord {
            modifiers: vec![HotkeyModifier::Control, HotkeyModifier::Alt],
            key: HotkeyKey::Function(12),
        },
        WakeShortcut::Chord { modifiers: vec![HotkeyModifier::Shift], key: HotkeyKey::Space },
        WakeShortcut::Chord { modifiers: vec![HotkeyModifier::Alt, HotkeyModifier::Shift], key: HotkeyKey::ArrowLeft },
    ];
    for shortcut in shortcuts {
        assert_eq!(WakeShortcut::parse(&shortcut.display_label()), Some(shortcut));
    }
}
