use quickfox_core::actions::{
    Action, ActionDispatchError, ActionDispatchResult, ActionDispatcher, ActionHandler,
    ActionOutcome, OpenApplication,
};

#[derive(Default)]
struct RecordingActionHandler {
    opened_paths: Vec<String>,
    opened_with_applications: Vec<(String, OpenApplication)>,
    opened_containing_folders: Vec<String>,
    copied_text: Vec<String>,
    opened_urls: Vec<String>,
    commands: Vec<String>,
}

impl ActionHandler for RecordingActionHandler {
    fn open_path(&mut self, path: &str) -> ActionDispatchResult {
        self.opened_paths.push(path.to_owned());
        Ok(ActionOutcome::Completed)
    }

    fn open_with_application(
        &mut self,
        path: &str,
        application: &OpenApplication,
    ) -> ActionDispatchResult {
        self.opened_with_applications
            .push((path.to_owned(), application.clone()));
        Ok(ActionOutcome::Completed)
    }

    fn copy_text(&mut self, text: &str) -> ActionDispatchResult {
        self.copied_text.push(text.to_owned());
        Ok(ActionOutcome::Completed)
    }

    fn open_containing_folder(&mut self, path: &str) -> ActionDispatchResult {
        self.opened_containing_folders.push(path.to_owned());
        Ok(ActionOutcome::Completed)
    }

    fn open_url(&mut self, url: &str) -> ActionDispatchResult {
        self.opened_urls.push(url.to_owned());
        Ok(ActionOutcome::Completed)
    }

    fn execute_command(&mut self, command: &str) -> ActionDispatchResult {
        self.commands.push(command.to_owned());
        Ok(ActionOutcome::Completed)
    }
}

#[test]
fn dispatcher_routes_open_copy_url_and_command_actions_to_handler() {
    let mut handler = RecordingActionHandler::default();
    let mut dispatcher = ActionDispatcher::new(&mut handler);

    dispatcher
        .dispatch(&Action::OpenPath {
            path: "/tmp/readme.md".to_owned(),
        })
        .unwrap();
    dispatcher
        .dispatch(&Action::CopyText {
            text: "42".to_owned(),
        })
        .unwrap();
    dispatcher
        .dispatch(&Action::OpenContainingFolder {
            path: "/tmp/readme.md".to_owned(),
        })
        .unwrap();
    dispatcher
        .dispatch(&Action::OpenWithApplication {
            path: "/tmp/readme.md".to_owned(),
            application: OpenApplication::DevelopmentTool,
        })
        .unwrap();
    dispatcher
        .dispatch(&Action::OpenUrl {
            url: "https://example.com".to_owned(),
        })
        .unwrap();
    dispatcher
        .dispatch(&Action::ExecuteCommand {
            command: "git status".to_owned(),
            requires_confirmation: true,
        })
        .unwrap();

    assert_eq!(handler.opened_paths, ["/tmp/readme.md"]);
    assert_eq!(
        handler.opened_with_applications,
        [(
            "/tmp/readme.md".to_owned(),
            OpenApplication::DevelopmentTool
        )]
    );
    assert_eq!(handler.opened_containing_folders, ["/tmp/readme.md"]);
    assert_eq!(handler.copied_text, ["42"]);
    assert_eq!(handler.opened_urls, ["https://example.com"]);
    assert_eq!(handler.commands, ["git status"]);
}

#[test]
fn dispatcher_refuses_unconfirmed_command_actions() {
    let mut handler = RecordingActionHandler::default();
    let mut dispatcher = ActionDispatcher::new(&mut handler);

    let result = dispatcher.dispatch(&Action::ExecuteCommand {
        command: "git status".to_owned(),
        requires_confirmation: false,
    });

    assert_eq!(
        result,
        Err(ActionDispatchError::CommandRequiresConfirmation)
    );
    assert!(handler.commands.is_empty());
}

struct PathsOnly {
    opened: Vec<String>,
}

impl ActionHandler for PathsOnly {
    fn open_path(&mut self, path: &str) -> ActionDispatchResult {
        self.opened.push(path.to_owned());
        Ok(ActionOutcome::Completed)
    }

    fn copy_text(&mut self, _text: &str) -> ActionDispatchResult {
        Err(ActionDispatchError::Adapter("no clipboard".to_owned()))
    }

    fn open_url(&mut self, _url: &str) -> ActionDispatchResult {
        Ok(ActionOutcome::Completed)
    }

    fn execute_command(&mut self, _command: &str) -> ActionDispatchResult {
        Ok(ActionOutcome::Completed)
    }
}

#[test]
fn default_handler_methods_open_the_path_and_errors_pass_through() {
    let mut handler = PathsOnly { opened: Vec::new() };
    let mut dispatcher = ActionDispatcher::new(&mut handler);

    dispatcher
        .dispatch(&Action::OpenContainingFolder { path: "/a".to_owned() })
        .unwrap();
    dispatcher
        .dispatch(&Action::OpenWithApplication {
            path: "/b".to_owned(),
            application: OpenApplication::DevelopmentTool,
        })
        .unwrap();
    let copied = dispatcher.dispatch(&Action::CopyText { text: "x".to_owned() });

    assert_eq!(copied, Err(ActionDispatchError::Adapter("no clipboard".to_owned())));
    assert_eq!(handler.opened, ["/a", "/b"]);
}
