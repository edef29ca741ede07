//! Launcher actions and their dispatch to a handler.

use vstd::prelude::*;

verus! {

#[derive(Debug, Clone, Copy, PartialEq, Eq, Structural)]
pub enum OpenApplication {
    DevelopmentTool,
}

/// What activating a search result does.
#[derive(Debug, Clone, PartialEq, Eq)]
pub enum Action {
    OpenPath { path: String },
    OpenContainingFolder { path: String },
    OpenWithApplication { path: String, application: OpenApplication },
    CopyText { text: String },
    OpenUrl { url: String },
    ExecuteCommand { command: String, requires_confirmation: bool },
}

impl Action {
    /// A copy of the action.
    pub fn duplicate(&self) -> (r: Self)
        ensures
            r == *self,
    {
        match self {
            Action::OpenPath { path } => Action::OpenPath { path: path.clone() },
            Action::OpenContainingFolder { path } => Action::OpenContainingFolder { path: path.clone() },
            Action::OpenWithApplication { path, application } => Action::OpenWithApplication {
                path: path.clone(),
                application: *application,
            },
            Action::CopyText { text } => Action::CopyText { text: text.clone() },
            Action::OpenUrl { url } => Action::OpenUrl { url: url.clone() },
            Action::ExecuteCommand { command, requires_confirmation } => Action::ExecuteCommand {
                command: command.clone(),
                requires_confirmation: *requires_confirmation,
            },
        }
    }
}

#[derive(Debug, Clone, Copy, PartialEq, Eq, Structural)]
pub enum ActionOutcome {
    Completed,
}

#[derive(Debug, Clone, PartialEq, Eq)]
pub enum ActionDispatchError {
    CommandRequiresConfirmation,
    Adapter(String),
}

pub type ActionDispatchResult = Result<ActionOutcome, ActionDispatchError>;

/// What a handler records of one of its operations: the operation, the text
/// it was handed, and what it returned.
pub type HandlerRecord = (HandlerMethod, Seq<char>, ActionDispatchResult);

/// The operations that carry out actions; the launcher shell implements them.
///
/// `performed` is the handler's log of the operations it has carried out,
/// oldest first. Each operation adds exactly one entry. The two operations with
/// a default body fall back to opening the path, so they log either their own
/// operation or `OpenPath`.
pub trait ActionHandler {
    closed spec fn performed(&self) -> Seq<HandlerRecord> {
        Seq::empty()
    }

    fn open_path(&mut self, path: &str) -> (r: ActionDispatchResult)
        ensures
            final(self).performed() == old(self).performed().push((HandlerMethod::OpenPath, path@, r)),
    ;

    fn open_with_application(&mut self, path: &str, application: &OpenApplication) -> (r: ActionDispatchResult)
        ensures
            final(self).performed() == old(self).performed().push((HandlerMethod::OpenWithApplication(*application), path@, r))
            || final(self).performed() == old(self).performed().push((HandlerMethod::OpenPath, path@, r)),
    {
        self.open_path(path)
    }

    fn copy_text(&mut self, text: &str) -> (r: ActionDispatchResult)
        ensures
            final(self).performed() == old(self).performed().push((HandlerMethod::CopyText, text@, r)),
    ;

    fn open_url(&mut self, url: &str) -> (r: ActionDispatchResult)
        ensures
            final(self).performed() == old(self).performed().push((HandlerMethod::OpenUrl, url@, r)),
    ;

    fn execute_command(&mut self, command: &str) -> (r: ActionDispatchResult)
        ensures
            final(self).performed() == old(self).performed().push((HandlerMethod::ExecuteCommand, command@, r)),
    ;

    fn open_containing_folder(&mut self, path: &str) -> (r: ActionDispatchResult)
        ensures
            final(self).performed() == old(self).performed().push((HandlerMethod::OpenContainingFolder, path@, r))
            || final(self).performed() == old(self).performed().push((HandlerMethod::OpenPath, path@, r)),
    {
        self.open_path(path)
    }
}

/// One handler operation the dispatcher invoked, with the text it handed over.
pub type HandlerRequest = (HandlerMethod, Seq<char>);

/// Routes actions to a handler.
///
/// `requested` records, oldest first, which handler operation the dispatcher
/// itself invoked for each call. It differs from the handler's own log where a
/// handler keeps a default body: that operation then logs `OpenPath`, while the
/// dispatcher still asked for the operation of the action's kind.
pub struct ActionDispatcher<'a, H: ActionHandler> {
    handler: &'a mut H,
    requested: Ghost<Seq<HandlerRequest>>,
}

/// A command that was not confirmed is refused before it reaches the handler.
pub open spec fn refused_unconfirmed(action: Action) -> bool {
    action matches Action::ExecuteCommand { requires_confirmation, .. } && !requires_confirmation
}

/// The handler operation an action goes to.
#[derive(Debug, Clone, Copy, PartialEq, Eq, Structural)]
pub enum HandlerMethod {
    OpenPath,
    OpenContainingFolder,
    OpenWithApplication(OpenApplication),
    CopyText,
    OpenUrl,
    ExecuteCommand,
}

/// One call of a handler operation: which one, and the text it is handed.
#[derive(Debug, Clone, PartialEq, Eq)]
pub struct HandlerCall {
    pub method: HandlerMethod,
    pub text: String,
}

/// The operation of the variant's name.
pub open spec fn action_method(action: Action) -> HandlerMethod {
    match action {
        Action::OpenPath { .. } => HandlerMethod::OpenPath,
        Action::OpenContainingFolder { .. } => HandlerMethod::OpenContainingFolder,
        Action::OpenWithApplication { application, .. } => HandlerMethod::OpenWithApplication(application),
        Action::CopyText { .. } => HandlerMethod::CopyText,
        Action::OpenUrl { .. } => HandlerMethod::OpenUrl,
        Action::ExecuteCommand { .. } => HandlerMethod::ExecuteCommand,
    }
}

/// The action's path, text, URL or command.
pub open spec fn action_text(action: Action) -> Seq<char> {
    match action {
        Action::OpenPath { path } => path@,
        Action::OpenContainingFolder { path } => path@,
        Action::OpenWithApplication { path, .. } => path@,
        Action::CopyText { text } => text@,
        Action::OpenUrl { url } => url@,
        Action::ExecuteCommand { command, .. } => command@,
    }
}

/// The call an action is dispatched as: the operation of its kind with its
/// text unchanged, or the refusal of an unconfirmed command.
pub fn dispatch_plan(action: &Action) -> (r: Result<HandlerCall, ActionDispatchError>)
    ensures
        r is Err <==> refused_unconfirmed(*action),
        r matches Err(e) ==> e == ActionDispatchError::CommandRequiresConfirmation,
        r matches Ok(call) ==> call.method == action_method(*action) && call.text@ == action_text(*action),
{
    match action {
        Action::OpenPath { path } => Ok(HandlerCall { method: HandlerMethod::OpenPath, text: path.clone() }),
        Action::OpenContainingFolder { path } => Ok(
            HandlerCall { method: HandlerMethod::OpenContainingFolder, text: path.clone() },
        ),
        Action::OpenWithApplication { path, application } => Ok(
            HandlerCall { method: HandlerMethod::OpenWithApplication(*application), text: path.clone() },
        ),
        Action::CopyText { text } => Ok(HandlerCall { method: HandlerMethod::CopyText, text: text.clone() }),
        Action::OpenUrl { url } => Ok(HandlerCall { method: HandlerMethod::OpenUrl, text: url.clone() }),
        Action::ExecuteCommand { command, requires_confirmation } => {
            if !*requires_confirmation {
                Err(ActionDispatchError::CommandRequiresConfirmation)
            } else {
                Ok(HandlerCall { method: HandlerMethod::ExecuteCommand, text: command.clone() })
            }
        },
    }
}

/// What the handler may log for a call: the call's own operation, or for the
/// two operations whose default opens the path, `OpenPath`.
pub open spec fn logged_as(method: HandlerMethod, logged: HandlerMethod) -> bool {
    ||| logged == method
    ||| (method is OpenWithApplication || method is OpenContainingFolder) && logged == HandlerMethod::OpenPath
}

/// The handler's log grew by exactly one entry, for `method` (or its default),
/// with `text` and the result `r`.
pub open spec fn one_call_logged(
    before: Seq<HandlerRecord>,
    after: Seq<HandlerRecord>,
    method: HandlerMethod,
    text: Seq<char>,
    r: ActionDispatchResult,
) -> bool {
    &&& after.len() == before.len() + 1
    &&& after.drop_last() == before
    &&& logged_as(method, after.last().0)
    &&& after.last().1 == text
    &&& after.last().2 == r
}

impl<'a, H: ActionHandler> ActionDispatcher<'a, H> {
    /// The handler's current state.
    pub closed spec fn handler_spec(&self) -> H {
        *self.handler
    }

    /// The handler operations this dispatcher has invoked, oldest first.
    pub closed spec fn requests(&self) -> Seq<HandlerRequest> {
        self.requested@
    }

    pub fn new(handler: &'a mut H) -> (r: Self)
        ensures
            r.handler_spec() == *old(handler),
            r.requests() == Seq::<HandlerRequest>::empty(),
    {
        ActionDispatcher { handler, requested: Ghost(Seq::empty()) }
    }

    /// Calls the handler operation `call` names with its text; what the
    /// operation returns is returned unchanged.
    pub fn perform(&mut self, call: &HandlerCall) -> (r: ActionDispatchResult)
        ensures
            final(self).requests() == old(self).requests().push((call.method, call.text@)),
            one_call_logged(
                old(self).handler_spec().performed(),
                final(self).handler_spec().performed(),
                call.method,
                call.text@,
                r,
            ),
    {
        let r = match call.method {
            HandlerMethod::OpenPath => {
                let r = self.handler.open_path(call.text.as_str());
                proof {
                    self.requested@ = self.requested@.push((HandlerMethod::OpenPath, call.text@));
                }
                r
            },
            HandlerMethod::OpenContainingFolder => {
                let r = self.handler.open_containing_folder(call.text.as_str());
                proof {
                    self.requested@ = self.requested@.push((HandlerMethod::OpenContainingFolder, call.text@));
                }
                r
            },
            HandlerMethod::OpenWithApplication(application) => {
                let r = self.handler.open_with_application(call.text.as_str(), &application);
                proof {
                    self.requested@ = self.requested@.push(
                        (HandlerMethod::OpenWithApplication(application), call.text@),
                    );
                }
                r
            },
            HandlerMethod::CopyText => {
                let r = self.handler.copy_text(call.text.as_str());
                proof {
                    self.requested@ = self.requested@.push((HandlerMethod::CopyText, call.text@));
                }
                r
            },
            HandlerMethod::OpenUrl => {
                let r = self.handler.open_url(call.text.as_str());
                proof {
                    self.requested@ = self.requested@.push((HandlerMethod::OpenUrl, call.text@));
                }
                r
            },
            HandlerMethod::ExecuteCommand => {
                let r = self.handler.execute_command(call.text.as_str());
                proof {
                    self.requested@ = self.requested@.push((HandlerMethod::ExecuteCommand, call.text@));
                }
                r
            },
        };
        assert(self.handler_spec().performed().drop_last() =~= old(self).handler_spec().performed());
        r
    }

    /// Performs the call `dispatch_plan` gives for the action; an unconfirmed
    /// command is refused without reaching the handler.
    pub fn dispatch(&mut self, action: &Action) -> (r: ActionDispatchResult)
        ensures
            refused_unconfirmed(*action) ==> r == Err::<ActionOutcome, ActionDispatchError>(
                ActionDispatchError::CommandRequiresConfirmation,
            ),
            refused_unconfirmed(*action) ==> final(self).handler_spec() == old(self).handler_spec(),
            refused_unconfirmed(*action) ==> final(self).requests() == old(self).requests(),
            !refused_unconfirmed(*action) ==> final(self).requests() == old(self).requests().push(
                (action_method(*action), action_text(*action)),
            ),
            *action matches Action::OpenPath { path } ==> final(self).requests()
                == old(self).requests().push((HandlerMethod::OpenPath, path@)),
            *action matches Action::OpenContainingFolder { path } ==> final(self).requests()
                == old(self).requests().push((HandlerMethod::OpenContainingFolder, path@)),
            *action matches Action::OpenWithApplication { path, application } ==> final(self).requests()
                == old(self).requests().push((HandlerMethod::OpenWithApplication(application), path@)),
            *action matches Action::CopyText { text } ==> final(self).requests()
                == old(self).requests().push((HandlerMethod::CopyText, text@)),
            *action matches Action::OpenUrl { url } ==> final(self).requests()
                == old(self).requests().push((HandlerMethod::OpenUrl, url@)),
            *action matches Action::ExecuteCommand { command, requires_confirmation } ==> (requires_confirmation
                ==> final(self).requests() == old(self).requests().push((HandlerMethod::ExecuteCommand, command@))),
            !refused_unconfirmed(*action) ==> one_call_logged(
                old(self).handler_spec().performed(),
                final(self).handler_spec().performed(),
                action_method(*action),
                action_text(*action),
                r,
            ),
    {
        match dispatch_plan(action) {
            Ok(call) => self.perform(&call),
            Err(error) => Err(error),
        }
    }
}

} // verus!
