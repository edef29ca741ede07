//! Platform adapters: default index roots, open/terminal/editor commands, command
//! safety checks, wake-shortcut parsing and the hotkey and window state machines.

use vstd::prelude::*;
use crate::text::{
    chars_eq, chars_of, contains_chars, contains_seq, has_prefix, is_ws, lower, lower_chars,
    owned, starts_with_chars, string_from_chars, trim_chars, trim_end_ws, trim_start_ws, trim_ws, unicode_lower,
    unicode_lowercase, upper_char, ascii_upper_char,
};

verus! {

broadcast use vstd::string::group_string_axioms;

#[derive(Debug, Clone, PartialEq, Eq)]
pub enum PlatformError {
    Adapter(String),
    NoTerminalAvailable,
    CommandBlocked(String),
}

pub type PlatformResult<T = ()> = Result<T, PlatformError>;

#[derive(Debug, Clone, Copy, PartialEq, Eq, Structural)]
pub enum PlatformKind {
    Windows,
    Linux,
    Macos,
}

/// Views of a list of strings.
pub open spec fn views(v: Seq<String>) -> Seq<Seq<char>> {
    Seq::new(v.len(), |i: int| v[i]@)
}

/// Views of a list of string slices.
pub open spec fn str_views(v: Seq<&str>) -> Seq<Seq<char>> {
    Seq::new(v.len(), |i: int| v[i]@)
}

/// A copy of a list of strings with the same views.
pub fn clone_strings(v: &Vec<String>) -> (r: Vec<String>)
    ensures
        views(r@) == views(v@),
        r@.len() == v@.len(),
{
    let mut out: Vec<String> = Vec::new();
    let mut i: usize = 0;
    while i < v.len()
        invariant
            i <= v@.len(),
            out@.len() == i,
            forall|k: int| 0 <= k < i ==> out@[k]@ == v@[k]@,
        decreases v@.len() - i,
    {
        let item: String = v[i].clone();
        out.push(item);
        i = i + 1;
    }
    assert(views(out@) =~= views(v@));
    out
}

/// Where the index starts when no roots are configured.
#[derive(Debug, Clone, PartialEq, Eq)]
pub struct PathAdapter {
    platform: PlatformKind,
    home_dir: Option<String>,
    user_profile: Option<String>,
    available_drive_roots: Vec<String>,
}

/// Drives on Windows when any are known, else the user profile or home directory;
/// the home directory elsewhere.
pub open spec fn default_roots_spec(
    platform: PlatformKind,
    home: Option<Seq<char>>,
    profile: Option<Seq<char>>,
    drives: Seq<Seq<char>>,
) -> Seq<Seq<char>> {
    match platform {
        PlatformKind::Windows => if drives.len() > 0 {
            drives
        } else {
            match profile {
                Some(p) => seq![p],
                None => match home {
                    Some(h) => seq![h],
                    None => seq![],
                },
            }
        },
        _ => match home {
            Some(h) => seq![h],
            None => seq![],
        },
    }
}

pub open spec fn opt_view(o: Option<String>) -> Option<Seq<char>> {
    match o {
        Some(s) => Some(s@),
        None => None,
    }
}

impl PathAdapter {
    pub closed spec fn roots_spec(&self) -> Seq<Seq<char>> {
        default_roots_spec(
            self.platform,
            opt_view(self.home_dir),
            opt_view(self.user_profile),
            views(self.available_drive_roots@),
        )
    }

    pub closed spec fn platform_spec(&self) -> PlatformKind {
        self.platform
    }

    pub closed spec fn home_spec(&self) -> Option<Seq<char>> {
        opt_view(self.home_dir)
    }

    pub closed spec fn profile_spec(&self) -> Option<Seq<char>> {
        opt_view(self.user_profile)
    }

    pub closed spec fn drives_spec(&self) -> Seq<Seq<char>> {
        views(self.available_drive_roots@)
    }

    pub fn new(platform: PlatformKind) -> (r: Self)
        ensures
            r.platform_spec() == platform,
            r.home_spec().is_none(),
            r.profile_spec().is_none(),
            r.drives_spec().len() == 0,
    {
        let r = PathAdapter {
            platform,
            home_dir: None,
            user_profile: None,
            available_drive_roots: Vec::new(),
        };
        assert(views(r.available_drive_roots@) =~= Seq::<Seq<char>>::empty());
        r
    }

    pub fn with_home_dir(self, home_dir: &str) -> (r: Self)
        ensures
            r.platform_spec() == self.platform_spec(),
            r.home_spec() == Some(home_dir@),
            r.profile_spec() == self.profile_spec(),
            r.drives_spec() == self.drives_spec(),
    {
        PathAdapter { home_dir: Some(owned(home_dir)), ..self }
    }

    pub fn with_user_profile(self, user_profile: &str) -> (r: Self)
        ensures
            r.platform_spec() == self.platform_spec(),
            r.home_spec() == self.home_spec(),
            r.profile_spec() == Some(user_profile@),
            r.drives_spec() == self.drives_spec(),
    {
        PathAdapter { user_profile: Some(owned(user_profile)), ..self }
    }

    pub fn with_available_drive_roots(self, roots: Vec<String>) -> (r: Self)
        ensures
            r.platform_spec() == self.platform_spec(),
            r.home_spec() == self.home_spec(),
            r.profile_spec() == self.profile_spec(),
            r.drives_spec() == views(roots@),
    {
        PathAdapter { available_drive_roots: roots, ..self }
    }

    pub fn default_index_roots(&self) -> (r: Vec<String>)
        ensures
            views(r@) == default_roots_spec(
                self.platform_spec(),
                self.home_spec(),
                self.profile_spec(),
                self.drives_spec(),
            ),
    {
        let mut out: Vec<String> = Vec::new();
        match self.platform {
            PlatformKind::Windows => {
                if self.available_drive_roots.len() > 0 {
                    return clone_strings(&self.available_drive_roots);
                }
                match &self.user_profile {
                    Some(p) => out.push(p.clone()),
                    None => match &self.home_dir {
                        Some(h) => out.push(h.clone()),
                        None => {},
                    },
                }
            },
            _ => match &self.home_dir {
                Some(h) => out.push(h.clone()),
                None => {},
            },
        }
        assert(views(out@) =~= default_roots_spec(
            self.platform,
            opt_view(self.home_dir),
            opt_view(self.user_profile),
            views(self.available_drive_roots@),
        ));
        out
    }
}

// ---------------------------------------------------------------------------
// Opening targets
// ---------------------------------------------------------------------------

#[derive(Debug, Clone, PartialEq, Eq)]
pub enum OpenTarget {
    File(String),
    Directory(String),
    ContainingFolder(String),
    Url(String),
}

/// What an adapter records of one of its operations: the operation, the path
/// or URL it was handed, and what it returned.
pub type OpenRecord = (OpenMethod, Seq<char>, PlatformResult);

/// The platform operations that open a file, directory, containing folder or URL.
///
/// `opened` is the adapter's log of the operations it has carried out, oldest
/// first. Each operation adds exactly one entry, naming itself.
pub trait OpenAdapter {
    closed spec fn opened(&self) -> Seq<OpenRecord> {
        Seq::empty()
    }

    fn open_file(&mut self, path: &str) -> (r: PlatformResult)
        ensures
            final(self).opened() == old(self).opened().push((OpenMethod::File, path@, r)),
    ;

    fn open_directory(&mut self, path: &str) -> (r: PlatformResult)
        ensures
            final(self).opened() == old(self).opened().push((OpenMethod::Directory, path@, r)),
    ;

    fn open_containing_folder(&mut self, path: &str) -> (r: PlatformResult)
        ensures
            final(self).opened() == old(self).opened().push((OpenMethod::ContainingFolder, path@, r)),
    ;

    fn open_url(&mut self, url: &str) -> (r: PlatformResult)
        ensures
            final(self).opened() == old(self).opened().push((OpenMethod::Url, url@, r)),
    ;
}

/// The adapter operation an open request goes to.
#[derive(Debug, Clone, Copy, PartialEq, Eq, Structural)]
pub enum OpenMethod {
    File,
    Directory,
    ContainingFolder,
    Url,
}

/// One call of an adapter operation: which one, and the path or URL it is handed.
#[derive(Debug, Clone, PartialEq, Eq)]
pub struct OpenCall {
    pub method: OpenMethod,
    pub text: String,
}

/// The operation of the target's kind.
pub open spec fn target_method(target: OpenTarget) -> OpenMethod {
    match target {
        OpenTarget::File(_) => OpenMethod::File,
        OpenTarget::Directory(_) => OpenMethod::Directory,
        OpenTarget::ContainingFolder(_) => OpenMethod::ContainingFolder,
        OpenTarget::Url(_) => OpenMethod::Url,
    }
}

/// The target's path or URL.
pub open spec fn target_text(target: OpenTarget) -> Seq<char> {
    match target {
        OpenTarget::File(p) => p@,
        OpenTarget::Directory(p) => p@,
        OpenTarget::ContainingFolder(p) => p@,
        OpenTarget::Url(u) => u@,
    }
}

/// The call an open request is routed as: the operation of its kind, with its
/// path or URL unchanged.
pub fn open_plan(target: &OpenTarget) -> (r: OpenCall)
    ensures
        r.method == target_method(*target),
        r.text@ == target_text(*target),
{
    match target {
        OpenTarget::File(p) => OpenCall { method: OpenMethod::File, text: p.clone() },
        OpenTarget::Directory(p) => OpenCall { method: OpenMethod::Directory, text: p.clone() },
        OpenTarget::ContainingFolder(p) => OpenCall { method: OpenMethod::ContainingFolder, text: p.clone() },
        OpenTarget::Url(u) => OpenCall { method: OpenMethod::Url, text: u.clone() },
    }
}

/// Routes an open request to the matching adapter operation.
pub struct OpenService<'a, A: OpenAdapter> {
    adapter: &'a mut A,
}

impl<'a, A: OpenAdapter> OpenService<'a, A> {
    /// The adapter's current state.
    pub closed spec fn adapter_spec(&self) -> A {
        *self.adapter
    }

    pub fn new(adapter: &'a mut A) -> (r: Self)
        ensures
            r.adapter_spec() == *old(adapter),
    {
        OpenService { adapter }
    }

    /// Calls the adapter operation `call` names with its text; what the
    /// operation returns is returned unchanged.
    pub fn perform(&mut self, call: &OpenCall) -> (r: PlatformResult)
        ensures
            final(self).adapter_spec().opened() == old(self).adapter_spec().opened().push(
                (call.method, call.text@, r),
            ),
    {
        match call.method {
            OpenMethod::File => self.adapter.open_file(call.text.as_str()),
            OpenMethod::Directory => self.adapter.open_directory(call.text.as_str()),
            OpenMethod::ContainingFolder => self.adapter.open_containing_folder(call.text.as_str()),
            OpenMethod::Url => self.adapter.open_url(call.text.as_str()),
        }
    }

    /// Performs the call `open_plan` gives for the target and returns what the
    /// adapter returns: exactly one adapter operation runs, the one of the
    /// target's kind, handed the target's path or URL unchanged.
    pub fn open(&mut self, target: OpenTarget) -> (r: PlatformResult)
        ensures
            final(self).adapter_spec().opened() == old(self).adapter_spec().opened().push(
                (target_method(target), target_text(target), r),
            ),
            target matches OpenTarget::File(p) ==> final(self).adapter_spec().opened()
                == old(self).adapter_spec().opened().push((OpenMethod::File, p@, r)),
            target matches OpenTarget::Directory(p) ==> final(self).adapter_spec().opened()
                == old(self).adapter_spec().opened().push((OpenMethod::Directory, p@, r)),
            target matches OpenTarget::ContainingFolder(p) ==> final(self).adapter_spec().opened()
                == old(self).adapter_spec().opened().push((OpenMethod::ContainingFolder, p@, r)),
            target matches OpenTarget::Url(u) ==> final(self).adapter_spec().opened()
                == old(self).adapter_spec().opened().push((OpenMethod::Url, u@, r)),
    {
        let call = open_plan(&target);
        self.perform(&call)
    }
}

// ---------------------------------------------------------------------------
// Process commands
// ---------------------------------------------------------------------------

#[derive(Debug, Clone, PartialEq, Eq)]
pub struct ProcessCommand {
    pub program: String,
    pub args: Vec<String>,
}

pub struct WindowsTerminalAdapter;

impl WindowsTerminalAdapter {
    /// `wt.exe cmd.exe /C <command>`.
    pub fn build_command(&self, command: &str) -> (r: PlatformResult<ProcessCommand>)
        ensures
            r matches Ok(c) && c.program@ == "wt.exe"@ && views(c.args@) == seq![
                "cmd.exe"@,
                "/C"@,
                command@,
            ],
    {
        let args = vec![owned("cmd.exe"), owned("/C"), owned(command)];
        assert(views(args@) =~= seq!["cmd.exe"@, "/C"@, command@]);
        Ok(ProcessCommand { program: owned("wt.exe"), args })
    }
}

/// The first candidate that is available.
pub open spec fn first_available(cands: Seq<Seq<char>>, avail: Seq<Seq<char>>) -> Option<Seq<char>>
    decreases cands.len(),
{
    if cands.len() == 0 {
        None
    } else if avail.contains(cands[0]) {
        Some(cands[0])
    } else {
        first_available(cands.drop_first(), avail)
    }
}

proof fn lemma_first_available_skip(cands: Seq<Seq<char>>, avail: Seq<Seq<char>>, i: int)
    requires
        0 <= i <= cands.len(),
        forall|k: int| 0 <= k < i ==> !avail.contains(#[trigger] cands[k]),
    ensures
        first_available(cands, avail) == first_available(cands.subrange(i, cands.len() as int), avail),
    decreases i,
{
    if i > 0 {
        assert(!avail.contains(cands[0]));
        lemma_first_available_skip(cands.drop_first(), avail, i - 1);
        assert(cands.drop_first().subrange(i - 1, cands.drop_first().len() as int) =~= cands.subrange(
            i,
            cands.len() as int,
        ));
    } else {
        assert(cands.subrange(0, cands.len() as int) =~= cands);
    }
}

/// Whether `name` is one of `available`.
fn is_available(name: &str, available: &[&str]) -> (r: bool)
    ensures
        r == str_views(available@).contains(name@),
{
    let n = chars_of(name);
    let mut j: usize = 0;
    while j < available.len()
        invariant
            j <= available@.len(),
            n@ == name@,
            forall|k: int| 0 <= k < j ==> available@[k]@ != name@,
        decreases available@.len() - j,
    {
        let a = chars_of(available[j]);
        if chars_eq(a.as_slice(), n.as_slice()) {
            assert(str_views(available@)[j as int] == name@);
            return true;
        }
        j = j + 1;
    }
    assert(!str_views(available@).contains(name@)) by {
        if str_views(available@).contains(name@) {
            let k = choose|k: int| 0 <= k < str_views(available@).len() && str_views(available@)[k] == name@;
            assert(available@[k]@ == name@);
        }
    }
    false
}

/// The first of `candidates` that is one of `available`.
fn pick_available(candidates: &Vec<String>, available: &[&str]) -> (r: Option<String>)
    ensures
        opt_view(r) == first_available(views(candidates@), str_views(available@)),
{
    let ghost cands = views(candidates@);
    let ghost avail = str_views(available@);
    let mut i: usize = 0;
    while i < candidates.len()
        invariant
            i <= candidates@.len(),
            cands == views(candidates@),
            avail == str_views(available@),
            forall|k: int| 0 <= k < i ==> !avail.contains(#[trigger] cands[k]),
        decreases candidates@.len() - i,
    {
        if is_available(candidates[i].as_str(), available) {
            proof {
                lemma_first_available_skip(cands, avail, i as int);
                assert(cands.subrange(i as int, cands.len() as int)[0] == cands[i as int]);
            }
            return Some(candidates[i].clone());
        }
        i = i + 1;
    }
    proof {
        lemma_first_available_skip(cands, avail, i as int);
    }
    None
}

pub open spec fn development_tool_fallbacks_spec() -> Seq<Seq<char>> {
    seq![
        "code"@,
        "cursor"@,
        "code.cmd"@,
        "cursor.cmd"@,
        "code.exe"@,
        "cursor.exe"@,
        "open"@,
        "xdg-open"@,
    ]
}

fn development_tool_fallbacks() -> (r: Vec<String>)
    ensures
        views(r@) == development_tool_fallbacks_spec(),
{
    let r = vec![
        owned("code"),
        owned("cursor"),
        owned("code.cmd"),
        owned("cursor.cmd"),
        owned("code.exe"),
        owned("cursor.exe"),
        owned("open"),
        owned("xdg-open"),
    ];
    assert(views(r@) =~= development_tool_fallbacks_spec());
    r
}

/// `macOS open -a "Visual Studio Code" <path>`, `xdg-open <path>`, or an editor
/// reusing its window.
pub open spec fn development_tool_args_spec(program: Seq<char>, path: Seq<char>) -> Seq<Seq<char>> {
    if program == "open"@ {
        seq!["-a"@, "Visual Studio Code"@, path]
    } else if program == "xdg-open"@ {
        seq![path]
    } else {
        seq!["--reuse-window"@, path]
    }
}

fn development_tool_args(program: &str, path: &str) -> (r: Vec<String>)
    ensures
        views(r@) == development_tool_args_spec(program@, path@),
{
    if crate::text::str_eq(program, "open") {
        let r = vec![owned("-a"), owned("Visual Studio Code"), owned(path)];
        assert(views(r@) =~= development_tool_args_spec(program@, path@));
        r
    } else if crate::text::str_eq(program, "xdg-open") {
        let r = vec![owned(path)];
        assert(views(r@) =~= development_tool_args_spec(program@, path@));
        r
    } else {
        let r = vec![owned("--reuse-window"), owned(path)];
        assert(views(r@) =~= development_tool_args_spec(program@, path@));
        r
    }
}

/// Appends the strings of `extra` to `v`.
fn append_strings(v: &mut Vec<String>, extra: &Vec<String>)
    ensures
        views(final(v)@) == views(old(v)@) + views(extra@),
{
    let ghost start = v@;
    let mut i: usize = 0;
    while i < extra.len()
        invariant
            i <= extra@.len(),
            v@.len() == start.len() + i,
            forall|k: int| 0 <= k < start.len() ==> v@[k]@ == start[k]@,
            forall|k: int| 0 <= k < i ==> v@[start.len() + k]@ == extra@[k]@,
        decreases extra@.len() - i,
    {
        let item: String = extra[i].clone();
        v.push(item);
        i = i + 1;
    }
    assert(views(v@) =~= views(start) + views(extra@));
}

/// Opens a path in the preferred development tool, falling back to common editors.
#[derive(Debug, Clone, PartialEq, Eq)]
pub struct DevelopmentToolAdapter {
    preferred_tools: Vec<String>,
}

impl DevelopmentToolAdapter {
    pub closed spec fn preferred_spec(&self) -> Seq<Seq<char>> {
        views(self.preferred_tools@)
    }

    pub fn new(preferred_tools: Vec<String>) -> (r: Self)
        ensures
            r.preferred_spec() == views(preferred_tools@),
    {
        DevelopmentToolAdapter { preferred_tools }
    }

    /// The first preferred or fallback tool that is available, with its arguments.
    pub fn build_command(&self, path: &str, available_tools: &[&str]) -> (r: PlatformResult<
        ProcessCommand,
    >)
        ensures
            match first_available(
                self.preferred_spec() + development_tool_fallbacks_spec(),
                str_views(available_tools@),
            ) {
                Some(p) => r matches Ok(c) && c.program@ == p && views(c.args@)
                    == development_tool_args_spec(p, path@),
                None => r == Err::<ProcessCommand, PlatformError>(PlatformError::NoTerminalAvailable),
            },
    {
        let mut candidates = clone_strings(&self.preferred_tools);
        let fallbacks = development_tool_fallbacks();
        append_strings(&mut candidates, &fallbacks);
        match pick_available(&candidates, available_tools) {
            Some(program) => {
                let args = development_tool_args(program.as_str(), path);
                Ok(ProcessCommand { program, args })
            },
            None => Err(PlatformError::NoTerminalAvailable),
        }
    }
}

/// The AppleScript escape of one character.
pub open spec fn applescript_escape_char(c: char) -> Seq<char> {
    if c == '\\' {
        seq!['\\', '\\']
    } else if c == '"' {
        seq!['\\', '"']
    } else if c == '\n' {
        seq![' ']
    } else {
        seq![c]
    }
}

/// Backslashes and quotes escaped, newlines replaced by spaces.
pub open spec fn applescript_escape(s: Seq<char>) -> Seq<char>
    decreases s.len(),
{
    if s.len() == 0 {
        Seq::empty()
    } else {
        applescript_escape(s.drop_last()) + applescript_escape_char(s.last())
    }
}

pub open spec fn osascript_spec(command: Seq<char>) -> Seq<char> {
    "tell application \"Terminal\" to do script \""@ + applescript_escape(command)
        + "\"\ntell application \"Terminal\" to activate"@
}

fn escape_applescript(s: &[char]) -> (r: Vec<char>)
    ensures
        r@ == applescript_escape(s@),
{
    let mut out: Vec<char> = Vec::new();
    let mut i: usize = 0;
    while i < s.len()
        invariant
            i <= s@.len(),
            out@ == applescript_escape(s@.take(i as int)),
        decreases s@.len() - i,
    {
        let c = s[i];
        if c == '\\' {
            out.push('\\');
            out.push('\\');
        } else if c == '"' {
            out.push('\\');
            out.push('"');
        } else if c == '\n' {
            out.push(' ');
        } else {
            out.push(c);
        }
        i = i + 1;
        assert(s@.take(i as int).drop_last() =~= s@.take(i - 1));
        assert(out@ =~= applescript_escape(s@.take(i as int)));
    }
    assert(s@.take(s@.len() as int) =~= s@);
    out
}

#[derive(Debug, Clone, PartialEq, Eq)]
pub struct MacosTerminalAdapter;

impl MacosTerminalAdapter {
    /// `osascript -e` with a Terminal script that runs the escaped command.
    pub fn build_command(&self, command: &str) -> (r: PlatformResult<ProcessCommand>)
        ensures
            r matches Ok(c) && c.program@ == "osascript"@ && views(c.args@) == seq![
                "-e"@,
                osascript_spec(command@),
            ],
    {
        let chars = chars_of(command);
        let escaped = escape_applescript(chars.as_slice());
        let mut script = chars_of("tell application \"Terminal\" to do script \"");
        let mut e = escaped;
        script.append(&mut e);
        let mut tail = chars_of("\"\ntell application \"Terminal\" to activate");
        script.append(&mut tail);
        let args = vec![owned("-e"), string_from_chars(script.as_slice())];
        assert(views(args@) =~= seq!["-e"@, osascript_spec(command@)]);
        Ok(ProcessCommand { program: owned("osascript"), args })
    }
}

pub open spec fn linux_terminal_fallbacks_spec() -> Seq<Seq<char>> {
    seq!["x-terminal-emulator"@, "gnome-terminal"@, "konsole"@, "xfce4-terminal"@, "xterm"@]
}

/// `gnome-terminal -- sh -lc <command>`, or `<terminal> -e sh -lc <command>`.
pub open spec fn linux_terminal_args_spec(program: Seq<char>, command: Seq<char>) -> Seq<Seq<char>> {
    if program == "gnome-terminal"@ {
        seq!["--"@, "sh"@, "-lc"@, command]
    } else {
        seq!["-e"@, "sh"@, "-lc"@, command]
    }
}

fn linux_terminal_args(program: &str, command: &str) -> (r: Vec<String>)
    ensures
        views(r@) == linux_terminal_args_spec(program@, command@),
{
    let first = if crate::text::str_eq(program, "gnome-terminal") {
        owned("--")
    } else {
        owned("-e")
    };
    let r = vec![first, owned("sh"), owned("-lc"), owned(command)];
    assert(views(r@) =~= linux_terminal_args_spec(program@, command@));
    r
}

/// Runs a shell command in the preferred terminal, falling back to common ones.
#[derive(Debug, Clone, PartialEq, Eq)]
pub struct LinuxTerminalAdapter {
    preferred_terminals: Vec<String>,
}

impl LinuxTerminalAdapter {
    pub closed spec fn preferred_spec(&self) -> Seq<Seq<char>> {
        views(self.preferred_terminals@)
    }

    pub fn new(preferred_terminals: Vec<String>) -> (r: Self)
        ensures
            r.preferred_spec() == views(preferred_terminals@),
    {
        LinuxTerminalAdapter { preferred_terminals }
    }

    pub fn build_command(&self, command: &str, available_terminals: &[&str]) -> (r: PlatformResult<
        ProcessCommand,
    >)
        ensures
            match first_available(
                self.preferred_spec() + linux_terminal_fallbacks_spec(),
                str_views(available_terminals@),
            ) {
                Some(p) => r matches Ok(c) && c.program@ == p && views(c.args@)
                    == linux_terminal_args_spec(p, command@),
                None => r == Err::<ProcessCommand, PlatformError>(PlatformError::NoTerminalAvailable),
            },
    {
        let mut candidates = clone_strings(&self.preferred_terminals);
        let fallbacks = vec![
            owned("x-terminal-emulator"),
            owned("gnome-terminal"),
            owned("konsole"),
            owned("xfce4-terminal"),
            owned("xterm"),
        ];
        assert(views(fallbacks@) =~= linux_terminal_fallbacks_spec());
        append_strings(&mut candidates, &fallbacks);
        match pick_available(&candidates, available_terminals) {
            Some(program) => {
                let args = linux_terminal_args(program.as_str(), command);
                Ok(ProcessCommand { program, args })
            },
            None => Err(PlatformError::NoTerminalAvailable),
        }
    }
}

// ---------------------------------------------------------------------------
// Command safety
// ---------------------------------------------------------------------------

#[derive(Debug, Clone, PartialEq, Eq)]
pub enum CommandSafetyDecision {
    AllowWithConfirmation,
    RequireStrongConfirmation { reason: String },
    Blocked { reason: String },
}

/// The decision's kind, without its reason text.
#[derive(Debug, Clone, Copy, PartialEq, Eq, Structural)]
pub enum SafetyLevel {
    Allow,
    Strong,
    Block,
}

/// Recursive deletion of the root is blocked; privilege escalation and disk
/// formatting tools need strong confirmation; anything else needs confirmation.
pub open spec fn safety_level_spec(command: Seq<char>) -> SafetyLevel {
    let n = unicode_lower(trim_ws(command));
    if n == "rm -rf /"@ || has_prefix(n, "rm -rf / "@) || has_prefix(n, "rm -rf /*"@) {
        SafetyLevel::Block
    } else if has_prefix(n, "sudo "@) || contains_seq(n, " mkfs"@) || has_prefix(n, "mkfs"@)
        || contains_seq(n, " diskpart"@) || has_prefix(n, "diskpart"@) {
        SafetyLevel::Strong
    } else {
        SafetyLevel::Allow
    }
}

pub open spec fn decision_level(d: CommandSafetyDecision) -> SafetyLevel {
    match d {
        CommandSafetyDecision::AllowWithConfirmation => SafetyLevel::Allow,
        CommandSafetyDecision::RequireStrongConfirmation { .. } => SafetyLevel::Strong,
        CommandSafetyDecision::Blocked { .. } => SafetyLevel::Block,
    }
}

#[derive(Debug, Clone, Default)]
pub struct CommandSafetyChecker;

/// Whether the string `s` has the prefix `p`, `p` given as a literal.
fn starts_with_lit(s: &[char], p: &str) -> (r: bool)
    ensures
        r == has_prefix(s@, p@),
{
    let pc = chars_of(p);
    starts_with_chars(s, pc.as_slice())
}

fn contains_lit(s: &[char], p: &str) -> (r: bool)
    ensures
        r == contains_seq(s@, p@),
{
    let pc = chars_of(p);
    contains_chars(s, pc.as_slice())
}

fn eq_lit(s: &[char], p: &str) -> (r: bool)
    ensures
        r == (s@ == p@),
{
    let pc = chars_of(p);
    chars_eq(s, pc.as_slice())
}

impl CommandSafetyChecker {
    pub fn check(&self, command: &str) -> (r: CommandSafetyDecision)
        ensures
            decision_level(r) == safety_level_spec(command@),
            r matches CommandSafetyDecision::Blocked { reason } ==> reason@ == "命令会递归删除根目录"@,
            r matches CommandSafetyDecision::RequireStrongConfirmation { reason } ==> reason@
                == "命令会提升权限或修改系统状态"@,
    {
        let chars = chars_of(command);
        let trimmed = trim_chars(chars.as_slice());
        let trimmed_text = string_from_chars(trimmed.as_slice());
        let lowered = unicode_lowercase(trimmed_text.as_str());
        let n = chars_of(lowered.as_str());
        if eq_lit(n.as_slice(), "rm -rf /") || starts_with_lit(n.as_slice(), "rm -rf / ")
            || starts_with_lit(n.as_slice(), "rm -rf /*") {
            return CommandSafetyDecision::Blocked { reason: owned("命令会递归删除根目录") };
        }
        if starts_with_lit(n.as_slice(), "sudo ") || contains_lit(n.as_slice(), " mkfs")
            || starts_with_lit(n.as_slice(), "mkfs") || contains_lit(n.as_slice(), " diskpart")
            || starts_with_lit(n.as_slice(), "diskpart") {
            return CommandSafetyDecision::RequireStrongConfirmation {
                reason: owned("命令会提升权限或修改系统状态"),
            };
        }
        CommandSafetyDecision::AllowWithConfirmation
    }
}

// ---------------------------------------------------------------------------
// Wake shortcuts
// ---------------------------------------------------------------------------

#[derive(Debug, Clone, Copy, PartialEq, Eq, Structural)]
pub enum KeyPress {
    KeyDown(HotkeyKey),
    KeyUp(HotkeyKey),
}

#[derive(Debug, Clone, Copy, PartialEq, Eq, Structural)]
pub enum HotkeyKey {
    Shift,
    Control,
    Alt,
    Command,
    Character(char),
    Space,
    Enter,
    Escape,
    Tab,
    Backspace,
    Delete,
    ArrowUp,
    ArrowDown,
    ArrowLeft,
    ArrowRight,
    Function(u8),
    Other,
}

#[derive(Debug, Clone, Copy, PartialEq, Eq, Structural)]
pub enum HotkeyModifier {
    Shift,
    Control,
    Alt,
    Command,
}

/// The shortcut that wakes the launcher: Shift pressed twice, or a chord.
#[derive(Debug, Clone, PartialEq, Eq)]
pub enum WakeShortcut {
    DoubleShift,
    Chord { modifiers: Vec<HotkeyModifier>, key: HotkeyKey },
}

/// A wake shortcut as a mathematical value.
pub enum ShortcutModel {
    DoubleShift,
    Chord(Seq<HotkeyModifier>, HotkeyKey),
}

impl WakeShortcut {
    pub open spec fn model(&self) -> ShortcutModel {
        match self {
            WakeShortcut::DoubleShift => ShortcutModel::DoubleShift,
            WakeShortcut::Chord { modifiers, key } => ShortcutModel::Chord(modifiers@, *key),
        }
    }
}

impl Default for WakeShortcut {
    fn default() -> (r: Self)
        ensures
            r == WakeShortcut::DoubleShift,
    {
        WakeShortcut::DoubleShift
    }
}

/// The pieces of `s` between occurrences of `sep` (`str::split`).
pub open spec fn split_seq(s: Seq<char>, sep: char) -> Seq<Seq<char>>
    decreases s.len(),
{
    if s.len() == 0 {
        seq![Seq::<char>::empty()]
    } else {
        let p = split_seq(s.drop_last(), sep);
        if s.last() == sep {
            p.push(Seq::<char>::empty())
        } else {
            p.update(p.len() - 1, p.last().push(s.last()))
        }
    }
}

proof fn lemma_split_nonempty(s: Seq<char>, sep: char)
    ensures
        split_seq(s, sep).len() >= 1,
    decreases s.len(),
{
    if s.len() > 0 {
        lemma_split_nonempty(s.drop_last(), sep);
    }
}

pub open spec fn modifier_spec(part: Seq<char>) -> Option<HotkeyModifier> {
    let l = lower(part);
    if l == "shift"@ {
        Some(HotkeyModifier::Shift)
    } else if l == "control"@ || l == "ctrl"@ {
        Some(HotkeyModifier::Control)
    } else if l == "alt"@ || l == "option"@ {
        Some(HotkeyModifier::Alt)
    } else if l == "command"@ || l == "cmd"@ || l == "meta"@ || l == "super"@ {
        Some(HotkeyModifier::Command)
    } else {
        None
    }
}

pub open spec fn is_digit(c: char) -> bool {
    '0' <= c && c <= '9'
}

/// The decimal value of a digit string.
pub open spec fn digits_value(s: Seq<char>) -> nat
    decreases s.len(),
{
    if s.len() == 0 {
        0
    } else {
        digits_value(s.drop_last()) * 10 + ((s.last() as u32) - ('0' as u32)) as nat
    }
}

/// The digits of an unsigned number: the text after an optional leading `+`.
pub open spec fn unsigned_digits(s: Seq<char>) -> Seq<char> {
    if s.len() > 0 && s[0] == '+' {
        s.drop_first()
    } else {
        s
    }
}

/// One or more decimal digits.
pub open spec fn all_digits(d: Seq<char>) -> bool {
    d.len() > 0 && forall|i: int| 0 <= i < d.len() ==> is_digit(#[trigger] d[i])
}

/// `u8::from_str`: an optional `+`, then one or more digits, at most 255.
pub open spec fn parse_u8_spec(s: Seq<char>) -> Option<u8> {
    if all_digits(unsigned_digits(s)) && digits_value(unsigned_digits(s)) <= 255 {
        Some(digits_value(unsigned_digits(s)) as u8)
    } else {
        None
    }
}

proof fn lemma_digits_value_grows(s: Seq<char>, i: int)
    requires
        0 <= i <= s.len(),
        forall|k: int| 0 <= k < s.len() ==> is_digit(#[trigger] s[k]),
    ensures
        digits_value(s.take(i)) <= digits_value(s),
    decreases s.len() - i,
{
    if i < s.len() {
        lemma_digits_value_grows(s, i + 1);
        assert(s.take(i + 1).drop_last() =~= s.take(i));
    } else {
        assert(s.take(i) =~= s);
    }
}

fn parse_u8(s: &[char]) -> (r: Option<u8>)
    ensures
        r == parse_u8_spec(s@),
{
    let start: usize = if s.len() > 0 && s[0] == '+' { 1 } else { 0 };
    let ghost d = unsigned_digits(s@);
    assert(d =~= s@.subrange(start as int, s@.len() as int));
    if start >= s.len() {
        assert(d.len() == 0);
        return None;
    }
    let mut value: u32 = 0;
    let mut i: usize = start;
    while i < s.len()
        invariant
            start <= i <= s@.len(),
            d =~= s@.subrange(start as int, s@.len() as int),
            d == unsigned_digits(s@),
            forall|k: int| 0 <= k < i - start ==> is_digit(#[trigger] d[k]),
            value as nat == digits_value(d.take(i - start)),
            value <= 255,
        decreases s@.len() - i,
    {
        let c = s[i];
        if !('0' <= c && c <= '9') {
            assert(d[i - start] == c);
            assert(!is_digit(d[i - start]));
            assert(!all_digits(d));
            return None;
        }
        let next = value * 10 + ((c as u32) - ('0' as u32));
        assert(d.take(i + 1 - start).drop_last() =~= d.take(i - start));
        assert(d.take(i + 1 - start).last() == c);
        i = i + 1;
        if next > 255 {
            proof {
                if all_digits(d) {
                    lemma_digits_value_grows(d, i - start);
                }
            }
            return None;
        }
        value = next;
    }
    assert(d.take(d.len() as int) =~= d);
    Some(value as u8)
}

pub open spec fn key_spec(part: Seq<char>) -> Option<HotkeyKey> {
    let l = lower(part);
    if l == "space"@ {
        Some(HotkeyKey::Space)
    } else if l == "enter"@ || l == "return"@ {
        Some(HotkeyKey::Enter)
    } else if l == "escape"@ || l == "esc"@ {
        Some(HotkeyKey::Escape)
    } else if l == "tab"@ {
        Some(HotkeyKey::Tab)
    } else if l == "backspace"@ {
        Some(HotkeyKey::Backspace)
    } else if l == "delete"@ || l == "del"@ {
        Some(HotkeyKey::Delete)
    } else if l == "arrowup"@ || l == "up"@ {
        Some(HotkeyKey::ArrowUp)
    } else if l == "arrowdown"@ || l == "down"@ {
        Some(HotkeyKey::ArrowDown)
    } else if l == "arrowleft"@ || l == "left"@ {
        Some(HotkeyKey::ArrowLeft)
    } else if l == "arrowright"@ || l == "right"@ {
        Some(HotkeyKey::ArrowRight)
    } else if l.len() == 1 && (l[0] as u32) < 128 {
        Some(HotkeyKey::Character(upper_char(l[0])))
    } else if l.len() > 0 && l[0] == 'f' {
        match parse_u8_spec(l.drop_first()) {
            Some(n) => if 1 <= n && n <= 24 {
                Some(HotkeyKey::Function(n))
            } else {
                None
            },
            None => None,
        }
    } else {
        None
    }
}

pub open spec fn is_modifier_key_spec(key: HotkeyKey) -> bool {
    key == HotkeyKey::Shift || key == HotkeyKey::Control || key == HotkeyKey::Alt || key
        == HotkeyKey::Command
}

/// Reading the pieces of a shortcut in order: modifiers are collected once each,
/// the first other piece names the key, and a second non-modifier piece after a
/// key rejects the shortcut.
pub open spec fn fold_parts(parts: Seq<Seq<char>>) -> Option<(Seq<HotkeyModifier>, Option<HotkeyKey>)>
    decreases parts.len(),
{
    if parts.len() == 0 {
        Some((Seq::empty(), None))
    } else {
        match fold_parts(parts.drop_last()) {
            None => None,
            Some((mods, key)) => {
                let part = trim_ws(parts.last());
                if part.len() == 0 {
                    Some((mods, key))
                } else {
                    match modifier_spec(part) {
                        Some(m) => Some((if mods.contains(m) { mods } else { mods.push(m) }, key)),
                        None => if key.is_none() {
                            Some((mods, key_spec(part)))
                        } else {
                            None
                        },
                    }
                }
            },
        }
    }
}

/// `Shift+Shift` (any case), or modifiers joined by `+` with one non-modifier key.
pub open spec fn parse_shortcut_spec(value: Seq<char>) -> Option<ShortcutModel> {
    let t = trim_ws(value);
    if lower(t) == lower("Shift+Shift"@) {
        Some(ShortcutModel::DoubleShift)
    } else {
        match fold_parts(split_seq(t, '+')) {
            Some((mods, Some(k))) => if mods.len() == 0 || is_modifier_key_spec(k) {
                None
            } else {
                Some(ShortcutModel::Chord(mods, k))
            },
            _ => None,
        }
    }
}

fn eq_word(s: &[char], w: &str) -> (r: bool)
    ensures
        r == (s@ == w@),
{
    eq_lit(s, w)
}

fn parse_hotkey_modifier(part: &[char]) -> (r: Option<HotkeyModifier>)
    ensures
        r == modifier_spec(part@),
{
    let l = lower_chars(part);
    let l = l.as_slice();
    if eq_word(l, "shift") {
        Some(HotkeyModifier::Shift)
    } else if eq_word(l, "control") || eq_word(l, "ctrl") {
        Some(HotkeyModifier::Control)
    } else if eq_word(l, "alt") || eq_word(l, "option") {
        Some(HotkeyModifier::Alt)
    } else if eq_word(l, "command") || eq_word(l, "cmd") || eq_word(l, "meta") || eq_word(
        l,
        "super",
    ) {
        Some(HotkeyModifier::Command)
    } else {
        None
    }
}

fn parse_hotkey_key(part: &[char]) -> (r: Option<HotkeyKey>)
    ensures
        r == key_spec(part@),
{
    let lv = lower_chars(part);
    let l = lv.as_slice();
    if eq_word(l, "space") {
        Some(HotkeyKey::Space)
    } else if eq_word(l, "enter") || eq_word(l, "return") {
        Some(HotkeyKey::Enter)
    } else if eq_word(l, "escape") || eq_word(l, "esc") {
        Some(HotkeyKey::Escape)
    } else if eq_word(l, "tab") {
        Some(HotkeyKey::Tab)
    } else if eq_word(l, "backspace") {
        Some(HotkeyKey::Backspace)
    } else if eq_word(l, "delete") || eq_word(l, "del") {
        Some(HotkeyKey::Delete)
    } else if eq_word(l, "arrowup") || eq_word(l, "up") {
        Some(HotkeyKey::ArrowUp)
    } else if eq_word(l, "arrowdown") || eq_word(l, "down") {
        Some(HotkeyKey::ArrowDown)
    } else if eq_word(l, "arrowleft") || eq_word(l, "left") {
        Some(HotkeyKey::ArrowLeft)
    } else if eq_word(l, "arrowright") || eq_word(l, "right") {
        Some(HotkeyKey::ArrowRight)
    } else if l.len() == 1 && (l[0] as u32) < 128 {
        Some(HotkeyKey::Character(ascii_upper_char(l[0])))
    } else if l.len() > 0 && l[0] == 'f' {
        let rest = crate::text::slice_chars(l, 1, l.len());
        assert(rest@ =~= l@.drop_first());
        match parse_u8(rest.as_slice()) {
            Some(n) => if 1 <= n && n <= 24 {
                Some(HotkeyKey::Function(n))
            } else {
                None
            },
            None => None,
        }
    } else {
        None
    }
}

fn is_modifier_key(key: HotkeyKey) -> (r: bool)
    ensures
        r == is_modifier_key_spec(key),
{
    match key {
        HotkeyKey::Shift | HotkeyKey::Control | HotkeyKey::Alt | HotkeyKey::Command => true,
        _ => false,
    }
}

fn contains_modifier(mods: &Vec<HotkeyModifier>, m: HotkeyModifier) -> (r: bool)
    ensures
        r == mods@.contains(m),
{
    let mut i: usize = 0;
    while i < mods.len()
        invariant
            i <= mods@.len(),
            forall|k: int| 0 <= k < i ==> mods@[k] != m,
        decreases mods@.len() - i,
    {
        if mods[i] == m {
            assert(mods@[i as int] == m);
            return true;
        }
        i = i + 1;
    }
    false
}

/// Splits `s` at every `sep`.
fn split_chars(s: &[char], sep: char) -> (r: Vec<Vec<char>>)
    ensures
        r@.len() == split_seq(s@, sep).len(),
        forall|i: int| 0 <= i < r@.len() ==> #[trigger] r@[i]@ == split_seq(s@, sep)[i],
{
    let mut parts: Vec<Vec<char>> = Vec::new();
    let mut current: Vec<char> = Vec::new();
    let mut i: usize = 0;
    while i < s.len()
        invariant
            i <= s@.len(),
            parts@.len() + 1 == split_seq(s@.take(i as int), sep).len(),
            forall|k: int| 0 <= k < parts@.len() ==> #[trigger] parts@[k]@ == split_seq(s@.take(i as int), sep)[k],
            current@ == split_seq(s@.take(i as int), sep).last(),
        decreases s@.len() - i,
    {
        let ghost prev = split_seq(s@.take(i as int), sep);
        proof {
            lemma_split_nonempty(s@.take(i as int), sep);
        }
        let c = s[i];
        assert(s@.take(i + 1).drop_last() =~= s@.take(i as int));
        if c == sep {
            let mut done: Vec<char> = Vec::new();
            std::mem::swap(&mut done, &mut current);
            parts.push(done);
        } else {
            current.push(c);
        }
        i = i + 1;
        proof {
            let next = split_seq(s@.take(i as int), sep);
            assert(forall|k: int| 0 <= k < parts@.len() ==> #[trigger] parts@[k]@ == next[k]);
        }
    }
    assert(s@.take(s@.len() as int) =~= s@);
    parts.push(current);
    parts
}

impl WakeShortcut {
    /// Parses `Shift+Shift` or a chord such as `Control+Space`.
    pub fn parse(value: &str) -> (r: Option<WakeShortcut>)
        ensures
            match r {
                Some(w) => parse_shortcut_spec(value@) == Some(w.model()),
                None => parse_shortcut_spec(value@).is_none(),
            },
    {
        let chars = chars_of(value);
        let t = trim_chars(chars.as_slice());
        let lt = lower_chars(t.as_slice());
        let target = chars_of("Shift+Shift");
        let target_lower = lower_chars(target.as_slice());
        if chars_eq(lt.as_slice(), target_lower.as_slice()) {
            return Some(WakeShortcut::DoubleShift);
        }
        let parts = split_chars(t.as_slice(), '+');
        let ghost all = split_seq(t@, '+');
        let mut modifiers: Vec<HotkeyModifier> = Vec::new();
        let mut key: Option<HotkeyKey> = None;
        let mut i: usize = 0;
        while i < parts.len()
            invariant
                i <= parts@.len(),
                parts@.len() == all.len(),
                forall|k: int| 0 <= k < parts@.len() ==> #[trigger] parts@[k]@ == all[k],
                fold_parts(all.take(i as int)) == Some((modifiers@, key)),
                t@ == trim_ws(value@),
                lower(t@) != lower("Shift+Shift"@),
                all == split_seq(t@, '+'),
            decreases parts@.len() - i,
        {
            assert(all.take(i + 1).drop_last() =~= all.take(i as int));
            assert(all.take(i + 1).last() == parts@[i as int]@);
            let part = trim_chars(parts[i].as_slice());
            if part.len() > 0 {
                match parse_hotkey_modifier(part.as_slice()) {
                    Some(m) => {
                        if !contains_modifier(&modifiers, m) {
                            modifiers.push(m);
                        }
                    },
                    None => {
                        if key.is_none() {
                            key = parse_hotkey_key(part.as_slice());
                        } else {
                            proof {
                                assert(fold_parts(all.take(i + 1)).is_none());
                                lemma_fold_none_stays(all, i + 1);
                            }
                            return None;
                        }
                    },
                }
            }
            i = i + 1;
        }
        assert(all.take(all.len() as int) =~= all);
        match key {
            Some(k) => {
                if modifiers.len() == 0 || is_modifier_key(k) {
                    None
                } else {
                    Some(WakeShortcut::Chord { modifiers, key: k })
                }
            },
            None => None,
        }
    }
}

proof fn lemma_fold_none_stays(parts: Seq<Seq<char>>, i: int)
    requires
        0 <= i <= parts.len(),
        fold_parts(parts.take(i)).is_none(),
    ensures
        fold_parts(parts).is_none(),
    decreases parts.len() - i,
{
    if i < parts.len() {
        assert(parts.take(i + 1).drop_last() =~= parts.take(i));
        lemma_fold_none_stays(parts, i + 1);
    } else {
        assert(parts.take(i) =~= parts);
    }
}

// ---------------------------------------------------------------------------
// Shortcut labels
// ---------------------------------------------------------------------------

pub open spec fn modifier_label(m: HotkeyModifier) -> Seq<char> {
    match m {
        HotkeyModifier::Shift => "Shift"@,
        HotkeyModifier::Control => "Control"@,
        HotkeyModifier::Alt => "Alt"@,
        HotkeyModifier::Command => "Command"@,
    }
}

pub open spec fn digit_char(d: nat) -> char {
    (('0' as u32) + d) as char
}

/// Decimal digits of `n`, without leading zeros.
pub open spec fn decimal(n: nat) -> Seq<char>
    decreases n,
{
    if n < 10 {
        seq![digit_char(n)]
    } else {
        decimal(n / 10).push(digit_char(n % 10))
    }
}

pub open spec fn key_label(key: HotkeyKey) -> Seq<char> {
    match key {
        HotkeyKey::Character(ch) => seq![ch],
        HotkeyKey::Space => "Space"@,
        HotkeyKey::Enter => "Enter"@,
        HotkeyKey::Escape => "Escape"@,
        HotkeyKey::Tab => "Tab"@,
        HotkeyKey::Backspace => "Backspace"@,
        HotkeyKey::Delete => "Delete"@,
        HotkeyKey::ArrowUp => "ArrowUp"@,
        HotkeyKey::ArrowDown => "ArrowDown"@,
        HotkeyKey::ArrowLeft => "ArrowLeft"@,
        HotkeyKey::ArrowRight => "ArrowRight"@,
        HotkeyKey::Function(n) => seq!['F'] + decimal(n as nat),
        HotkeyKey::Shift => "Shift"@,
        HotkeyKey::Control => "Control"@,
        HotkeyKey::Alt => "Alt"@,
        HotkeyKey::Command => "Command"@,
        HotkeyKey::Other => "Other"@,
    }
}

/// The labels of the modifiers, in order, each followed by `+`.
pub open spec fn modifiers_prefix(mods: Seq<HotkeyModifier>) -> Seq<char>
    decreases mods.len(),
{
    if mods.len() == 0 {
        Seq::empty()
    } else {
        modifiers_prefix(mods.drop_last()) + modifier_label(mods.last()) + seq!['+']
    }
}

/// `Shift+Shift`, or the modifier labels and the key label joined by `+`.
pub open spec fn label_spec(w: ShortcutModel) -> Seq<char> {
    match w {
        ShortcutModel::DoubleShift => "Shift+Shift"@,
        ShortcutModel::Chord(mods, key) => modifiers_prefix(mods) + key_label(key),
    }
}

fn push_literal(out: &mut Vec<char>, lit: &str)
    ensures
        final(out)@ == old(out)@ + lit@,
{
    let mut l = chars_of(lit);
    out.append(&mut l);
}

fn push_decimal(out: &mut Vec<char>, n: u8)
    ensures
        final(out)@ == old(out)@ + decimal(n as nat),
{
    if n >= 100 {
        out.push((('0' as u8) + n / 100) as char);
        out.push((('0' as u8) + (n / 10) % 10) as char);
        out.push((('0' as u8) + n % 10) as char);
        assert(decimal(n as nat / 100) == seq![digit_char(n as nat / 100)]);
        assert(decimal(n as nat / 10) == decimal(n as nat / 100).push(digit_char((n as nat / 10) % 10)));
    } else if n >= 10 {
        out.push((('0' as u8) + n / 10) as char);
        out.push((('0' as u8) + n % 10) as char);
        assert(decimal(n as nat / 10) == seq![digit_char(n as nat / 10)]);
    } else {
        out.push((('0' as u8) + n) as char);
    }
    assert(final(out)@ =~= old(out)@ + decimal(n as nat));
}

fn push_key_label(out: &mut Vec<char>, key: HotkeyKey)
    ensures
        final(out)@ == old(out)@ + key_label(key),
{
    match key {
        HotkeyKey::Character(ch) => {
            out.push(ch);
            assert(final(out)@ =~= old(out)@ + key_label(key));
        },
        HotkeyKey::Space => push_literal(out, "Space"),
        HotkeyKey::Enter => push_literal(out, "Enter"),
        HotkeyKey::Escape => push_literal(out, "Escape"),
        HotkeyKey::Tab => push_literal(out, "Tab"),
        HotkeyKey::Backspace => push_literal(out, "Backspace"),
        HotkeyKey::Delete => push_literal(out, "Delete"),
        HotkeyKey::ArrowUp => push_literal(out, "ArrowUp"),
        HotkeyKey::ArrowDown => push_literal(out, "ArrowDown"),
        HotkeyKey::ArrowLeft => push_literal(out, "ArrowLeft"),
        HotkeyKey::ArrowRight => push_literal(out, "ArrowRight"),
        HotkeyKey::Function(n) => {
            out.push('F');
            push_decimal(out, n);
            assert(final(out)@ =~= old(out)@ + key_label(key));
        },
        HotkeyKey::Shift => push_literal(out, "Shift"),
        HotkeyKey::Control => push_literal(out, "Control"),
        HotkeyKey::Alt => push_literal(out, "Alt"),
        HotkeyKey::Command => push_literal(out, "Command"),
        HotkeyKey::Other => push_literal(out, "Other"),
    }
}

impl WakeShortcut {
    /// The label shown for the shortcut, e.g. `Command+Shift+K`.
    pub fn display_label(&self) -> (r: String)
        ensures
            r@ == label_spec(self.model()),
    {
        match self {
            WakeShortcut::DoubleShift => owned("Shift+Shift"),
            WakeShortcut::Chord { modifiers, key } => {
                let mut out: Vec<char> = Vec::new();
                let mut i: usize = 0;
                while i < modifiers.len()
                    invariant
                        i <= modifiers@.len(),
                        out@ == modifiers_prefix(modifiers@.take(i as int)),
                    decreases modifiers@.len() - i,
                {
                    let label = match modifiers[i] {
                        HotkeyModifier::Shift => "Shift",
                        HotkeyModifier::Control => "Control",
                        HotkeyModifier::Alt => "Alt",
                        HotkeyModifier::Command => "Command",
                    };
                    assert(label@ == modifier_label(modifiers@[i as int]));
                    push_literal(&mut out, label);
                    out.push('+');
                    assert(modifiers@.take(i + 1).drop_last() =~= modifiers@.take(i as int));
                    i = i + 1;
                    assert(out@ =~= modifiers_prefix(modifiers@.take(i as int)));
                }
                assert(modifiers@.take(modifiers@.len() as int) =~= modifiers@);
                push_key_label(&mut out, *key);
                string_from_chars(out.as_slice())
            },
        }
    }
}

// ---------------------------------------------------------------------------
// Hotkey state
// ---------------------------------------------------------------------------

pub open spec fn sat_sub(a: u64, b: u64) -> u64 {
    if a >= b { (a - b) as u64 } else { 0 }
}

pub open spec fn modifier_for_key_spec(key: HotkeyKey) -> Option<HotkeyModifier> {
    match key {
        HotkeyKey::Shift => Some(HotkeyModifier::Shift),
        HotkeyKey::Control => Some(HotkeyModifier::Control),
        HotkeyKey::Alt => Some(HotkeyModifier::Alt),
        HotkeyKey::Command => Some(HotkeyModifier::Command),
        _ => None,
    }
}

fn modifier_for_key(key: HotkeyKey) -> (r: Option<HotkeyModifier>)
    ensures
        r == modifier_for_key_spec(key),
{
    match key {
        HotkeyKey::Shift => Some(HotkeyModifier::Shift),
        HotkeyKey::Control => Some(HotkeyModifier::Control),
        HotkeyKey::Alt => Some(HotkeyModifier::Alt),
        HotkeyKey::Command => Some(HotkeyModifier::Command),
        _ => None,
    }
}

/// `i` is the first entry recorded for modifier `m`.
pub open spec fn first_pressed(p: Seq<(HotkeyModifier, u64)>, m: HotkeyModifier, i: int) -> bool {
    0 <= i < p.len() && p[i].0 == m && forall|k: int| 0 <= k < i ==> p[k].0 != m
}

/// The pressed modifiers with every entry for `m` removed.
pub open spec fn without_modifier(p: Seq<(HotkeyModifier, u64)>, m: HotkeyModifier) -> Seq<(HotkeyModifier, u64)>
    decreases p.len(),
{
    if p.len() == 0 {
        p
    } else {
        let rest = without_modifier(p.drop_last(), m);
        if p.last().0 == m {
            rest
        } else {
            rest.push(p.last())
        }
    }
}

/// Modifier `m` was last pressed no more than `window` milliseconds before `ts`.
pub open spec fn recent(p: Seq<(HotkeyModifier, u64)>, m: HotkeyModifier, ts: u64, window: u64) -> bool {
    exists|i: int| first_pressed(p, m, i) && sat_sub(ts, p[i].1) <= window
}

/// Every wanted modifier was pressed no more than `window` milliseconds before `ts`.
pub open spec fn chord_satisfied(
    p: Seq<(HotkeyModifier, u64)>,
    mods: Seq<HotkeyModifier>,
    ts: u64,
    window: u64,
) -> bool {
    forall|j: int| 0 <= j < mods.len() ==> #[trigger] recent(p, mods[j], ts, window)
}

/// Double Shift: a Shift press within the window of the previous one shows the
/// launcher; any other key press forgets the previous Shift.
pub open spec fn double_shift_step(last: Option<u64>, window: u64, key: KeyPress, ts: u64) -> (Option<u64>, bool) {
    match key {
        KeyPress::KeyDown(HotkeyKey::Shift) => (
            Some(ts),
            match last {
                Some(l) => sat_sub(ts, l) <= window,
                None => false,
            },
        ),
        KeyPress::KeyDown(_) => (None, false),
        KeyPress::KeyUp(_) => (last, false),
    }
}

/// Chord: modifier presses are remembered with their time, the wake key fires when
/// every chord modifier was pressed recently, and any other key clears the state.
pub open spec fn chord_step(
    p: Seq<(HotkeyModifier, u64)>,
    window: u64,
    key: KeyPress,
    ts: u64,
    mods: Seq<HotkeyModifier>,
    wake: HotkeyKey,
) -> (Seq<(HotkeyModifier, u64)>, bool) {
    match key {
        KeyPress::KeyDown(k) => match modifier_for_key_spec(k) {
            Some(m) => (
                if exists|i: int| first_pressed(p, m, i) {
                    p.update(choose|i: int| first_pressed(p, m, i), (m, ts))
                } else {
                    p.push((m, ts))
                },
                false,
            ),
            None => if k == wake {
                (Seq::empty(), chord_satisfied(p, mods, ts, window))
            } else {
                (Seq::empty(), false)
            },
        },
        KeyPress::KeyUp(k) => (
            match modifier_for_key_spec(k) {
                Some(m) => without_modifier(p, m),
                None => p,
            },
            false,
        ),
    }
}

/// Recognises the wake shortcut from a stream of key presses.
#[derive(Debug, Clone, PartialEq, Eq)]
pub struct HotkeyState {
    shortcut: WakeShortcut,
    last_shift_at_ms: Option<u64>,
    double_shift_window_ms: u64,
    chord_window_ms: u64,
    pressed_modifiers: Vec<(HotkeyModifier, u64)>,
}

impl Default for HotkeyState {
    fn default() -> (r: Self)
        ensures
            r.shortcut_spec() == ShortcutModel::DoubleShift,
            r.last_shift_spec().is_none(),
            r.double_shift_window_spec() == 500,
            r.chord_window_spec() == 500,
            r.pressed_spec().len() == 0,
    {
        HotkeyState {
            shortcut: WakeShortcut::DoubleShift,
            last_shift_at_ms: None,
            double_shift_window_ms: 500,
            chord_window_ms: 500,
            pressed_modifiers: Vec::new(),
        }
    }
}

fn clone_modifiers(v: &Vec<HotkeyModifier>) -> (r: Vec<HotkeyModifier>)
    ensures
        r@ == v@,
{
    let mut out: Vec<HotkeyModifier> = Vec::new();
    let mut i: usize = 0;
    while i < v.len()
        invariant
            i <= v@.len(),
            out@ == v@.take(i as int),
        decreases v@.len() - i,
    {
        out.push(v[i]);
        i = i + 1;
        assert(out@ =~= v@.take(i as int));
    }
    assert(v@.take(v@.len() as int) =~= v@);
    out
}

fn shortcut_eq(a: &WakeShortcut, b: &WakeShortcut) -> (r: bool)
    ensures
        r == (a.model() == b.model()),
{
    match (a, b) {
        (WakeShortcut::DoubleShift, WakeShortcut::DoubleShift) => true,
        (
            WakeShortcut::Chord { modifiers: ma, key: ka },
            WakeShortcut::Chord { modifiers: mb, key: kb },
        ) => {
            if *ka != *kb || ma.len() != mb.len() {
                return false;
            }
            let mut i: usize = 0;
            while i < ma.len()
                invariant
                    i <= ma@.len(),
                    ma@.len() == mb@.len(),
                    a.model() == ShortcutModel::Chord(ma@, *ka),
                    b.model() == ShortcutModel::Chord(mb@, *kb),
                    forall|k: int| 0 <= k < i ==> ma@[k] == mb@[k],
                decreases ma@.len() - i,
            {
                if ma[i] != mb[i] {
                    assert(ma@[i as int] != mb@[i as int]);
                    assert(ma@ != mb@);
                    return false;
                }
                i = i + 1;
            }
            assert(ma@ =~= mb@);
            true
        },
        _ => false,
    }
}

impl HotkeyState {
    pub closed spec fn shortcut_spec(&self) -> ShortcutModel {
        self.shortcut.model()
    }

    pub closed spec fn last_shift_spec(&self) -> Option<u64> {
        self.last_shift_at_ms
    }

    pub closed spec fn double_shift_window_spec(&self) -> u64 {
        self.double_shift_window_ms
    }

    pub closed spec fn chord_window_spec(&self) -> u64 {
        self.chord_window_ms
    }

    pub closed spec fn pressed_spec(&self) -> Seq<(HotkeyModifier, u64)> {
        self.pressed_modifiers@
    }

    pub fn with_shortcut(shortcut: WakeShortcut) -> (r: Self)
        ensures
            r.shortcut_spec() == shortcut.model(),
            r.last_shift_spec().is_none(),
            r.double_shift_window_spec() == 500,
            r.chord_window_spec() == 500,
            r.pressed_spec().len() == 0,
    {
        HotkeyState {
            shortcut,
            last_shift_at_ms: None,
            double_shift_window_ms: 500,
            chord_window_ms: 500,
            pressed_modifiers: Vec::new(),
        }
    }

    /// Switches to another shortcut, forgetting partial presses; the same shortcut
    /// changes nothing.
    pub fn set_shortcut(&mut self, shortcut: WakeShortcut)
        ensures
            final(self).shortcut_spec() == shortcut.model(),
            final(self).double_shift_window_spec() == old(self).double_shift_window_spec(),
            final(self).chord_window_spec() == old(self).chord_window_spec(),
            old(self).shortcut_spec() == shortcut.model() ==> {
                &&& final(self).last_shift_spec() == old(self).last_shift_spec()
                &&& final(self).pressed_spec() == old(self).pressed_spec()
            },
            old(self).shortcut_spec() != shortcut.model() ==> {
                &&& final(self).last_shift_spec().is_none()
                &&& final(self).pressed_spec().len() == 0
            },
    {
        if !shortcut_eq(&self.shortcut, &shortcut) {
            self.shortcut = shortcut;
            self.last_shift_at_ms = None;
            self.pressed_modifiers.clear();
        }
    }

    /// Feeds one key press at `timestamp_ms`; true when the launcher should appear.
    pub fn register_key_press(&mut self, key: KeyPress, timestamp_ms: u64) -> (r: bool)
        ensures
            final(self).shortcut_spec() == old(self).shortcut_spec(),
            final(self).double_shift_window_spec() == old(self).double_shift_window_spec(),
            final(self).chord_window_spec() == old(self).chord_window_spec(),
            match old(self).shortcut_spec() {
                ShortcutModel::DoubleShift => {
                    let (last, show) = double_shift_step(
                        old(self).last_shift_spec(),
                        old(self).double_shift_window_spec(),
                        key,
                        timestamp_ms,
                    );
                    &&& r == show
                    &&& final(self).last_shift_spec() == last
                    &&& final(self).pressed_spec() == old(self).pressed_spec()
                },
                ShortcutModel::Chord(mods, wake) => {
                    let (pressed, show) = chord_step(
                        old(self).pressed_spec(),
                        old(self).chord_window_spec(),
                        key,
                        timestamp_ms,
                        mods,
                        wake,
                    );
                    &&& r == show
                    &&& final(self).pressed_spec() == pressed
                    &&& final(self).last_shift_spec() == old(self).last_shift_spec()
                },
            },
    {
        match &self.shortcut {
            WakeShortcut::DoubleShift => self.register_double_shift(key, timestamp_ms),
            WakeShortcut::Chord { modifiers, key: wake_key } => {
                let mods = clone_modifiers(modifiers);
                let wake = *wake_key;
                self.register_chord(key, timestamp_ms, &mods, wake)
            },
        }
    }

    fn register_double_shift(&mut self, key: KeyPress, timestamp_ms: u64) -> (r: bool)
        ensures
            (final(self).last_shift_spec(), r) == double_shift_step(
                old(self).last_shift_spec(),
                old(self).double_shift_window_spec(),
                key,
                timestamp_ms,
            ),
            final(self).shortcut == old(self).shortcut,
            final(self).double_shift_window_ms == old(self).double_shift_window_ms,
            final(self).chord_window_ms == old(self).chord_window_ms,
            final(self).pressed_modifiers@ == old(self).pressed_modifiers@,
    {
        match key {
            KeyPress::KeyDown(HotkeyKey::Shift) => {
                let should_show = match self.last_shift_at_ms {
                    Some(last) => timestamp_ms.saturating_sub(last) <= self.double_shift_window_ms,
                    None => false,
                };
                self.last_shift_at_ms = Some(timestamp_ms);
                should_show
            },
            KeyPress::KeyDown(_) => {
                self.last_shift_at_ms = None;
                false
            },
            KeyPress::KeyUp(_) => false,
        }
    }

    fn register_chord(
        &mut self,
        key: KeyPress,
        timestamp_ms: u64,
        modifiers: &Vec<HotkeyModifier>,
        wake_key: HotkeyKey,
    ) -> (r: bool)
        ensures
            (final(self).pressed_spec(), r) == chord_step(
                old(self).pressed_spec(),
                old(self).chord_window_spec(),
                key,
                timestamp_ms,
                modifiers@,
                wake_key,
            ),
            final(self).shortcut == old(self).shortcut,
            final(self).double_shift_window_ms == old(self).double_shift_window_ms,
            final(self).chord_window_ms == old(self).chord_window_ms,
            final(self).last_shift_at_ms == old(self).last_shift_at_ms,
    {
        match key {
            KeyPress::KeyDown(pressed_key) => {
                match modifier_for_key(pressed_key) {
                    Some(modifier) => {
                        match find_pressed(&self.pressed_modifiers, modifier) {
                            Some(i) => {
                                self.pressed_modifiers.set(i, (modifier, timestamp_ms));
                            },
                            None => {
                                self.pressed_modifiers.push((modifier, timestamp_ms));
                            },
                        }
                        false
                    },
                    None => {
                        if pressed_key == wake_key {
                            let should_show = all_recent(
                                &self.pressed_modifiers,
                                modifiers,
                                timestamp_ms,
                                self.chord_window_ms,
                            );
                            self.pressed_modifiers.clear();
                            should_show
                        } else {
                            self.pressed_modifiers.clear();
                            false
                        }
                    },
                }
            },
            KeyPress::KeyUp(released_key) => {
                if let Some(modifier) = modifier_for_key(released_key) {
                    let kept = retain_other_modifiers(&self.pressed_modifiers, modifier);
                    self.pressed_modifiers = kept;
                }
                false
            },
        }
    }
}

/// The first entry for `m`, if any.
fn find_pressed(p: &Vec<(HotkeyModifier, u64)>, m: HotkeyModifier) -> (r: Option<usize>)
    ensures
        match r {
            Some(i) => first_pressed(p@, m, i as int) && i < p@.len(),
            None => !exists|i: int| first_pressed(p@, m, i),
        },
{
    let mut i: usize = 0;
    while i < p.len()
        invariant
            i <= p@.len(),
            forall|k: int| 0 <= k < i ==> p@[k].0 != m,
        decreases p@.len() - i,
    {
        if p[i].0 == m {
            return Some(i);
        }
        i = i + 1;
    }
    None
}

proof fn lemma_first_pressed_unique(p: Seq<(HotkeyModifier, u64)>, m: HotkeyModifier, i: int, j: int)
    requires
        first_pressed(p, m, i),
        first_pressed(p, m, j),
    ensures
        i == j,
{
}

/// Whether every modifier in `mods` was pressed within `window` of `ts`.
fn all_recent(p: &Vec<(HotkeyModifier, u64)>, mods: &Vec<HotkeyModifier>, ts: u64, window: u64) -> (r: bool)
    ensures
        r == chord_satisfied(p@, mods@, ts, window),
{
    let mut j: usize = 0;
    while j < mods.len()
        invariant
            j <= mods@.len(),
            forall|k: int| 0 <= k < j ==> #[trigger] recent(p@, mods@[k], ts, window),
        decreases mods@.len() - j,
    {
        match find_pressed(p, mods[j]) {
            Some(i) => {
                let pressed_at = p[i].1;
                let elapsed = if ts >= pressed_at { ts - pressed_at } else { 0 };
                if elapsed > window {
                    assert(!recent(p@, mods@[j as int], ts, window)) by {
                        assert forall|i2: int| first_pressed(p@, mods@[j as int], i2) implies sat_sub(ts, p@[i2].1) > window by {
                            lemma_first_pressed_unique(p@, mods@[j as int], i as int, i2);
                        }
                    }
                    return false;
                }
                assert(first_pressed(p@, mods@[j as int], i as int));
                assert(recent(p@, mods@[j as int], ts, window));
            },
            None => {
                assert(!recent(p@, mods@[j as int], ts, window));
                return false;
            },
        }
        j = j + 1;
    }
    true
}

fn retain_other_modifiers(p: &Vec<(HotkeyModifier, u64)>, m: HotkeyModifier) -> (r: Vec<(HotkeyModifier, u64)>)
    ensures
        r@ == without_modifier(p@, m),
{
    let mut out: Vec<(HotkeyModifier, u64)> = Vec::new();
    let mut i: usize = 0;
    while i < p.len()
        invariant
            i <= p@.len(),
            out@ == without_modifier(p@.take(i as int), m),
        decreases p@.len() - i,
    {
        assert(p@.take(i + 1).drop_last() =~= p@.take(i as int));
        if p[i].0 != m {
            out.push(p[i]);
        }
        i = i + 1;
    }
    assert(p@.take(p@.len() as int) =~= p@);
    out
}

// ---------------------------------------------------------------------------
// Launcher window
// ---------------------------------------------------------------------------

#[derive(Debug, Clone, Copy, PartialEq, Eq, Structural)]
pub enum LauncherWindowEffect {
    ShowAndFocus,
    Hide,
}

#[derive(Debug, Clone, Default, PartialEq, Eq)]
pub struct LauncherWindowState {
    visible: bool,
    focused: bool,
}

impl LauncherWindowState {
    pub closed spec fn visible_spec(&self) -> bool {
        self.visible
    }

    pub closed spec fn focused_spec(&self) -> bool {
        self.focused
    }

    pub fn show(&mut self)
        ensures
            final(self).visible_spec(),
            final(self).focused_spec(),
    {
        self.visible = true;
        self.focused = true;
    }

    pub fn hide_window(&mut self)
        ensures
            !final(self).visible_spec(),
            !final(self).focused_spec(),
    {
        self.visible = false;
        self.focused = false;
    }

    pub fn is_visible(&self) -> (r: bool)
        ensures
            r == self.visible_spec(),
    {
        self.visible
    }

    pub fn is_focused(&self) -> (r: bool)
        ensures
            r == self.focused_spec(),
    {
        self.focused
    }

    /// Still shown, but another window has the focus.
    pub fn mark_backgrounded(&mut self)
        ensures
            final(self).visible_spec(),
            !final(self).focused_spec(),
    {
        self.visible = true;
        self.focused = false;
    }

    /// The global hotkey hides a visible, focused launcher and otherwise shows and
    /// focuses it.
    pub fn toggle_for_global_hotkey(&mut self) -> (r: LauncherWindowEffect)
        ensures
            (old(self).visible_spec() && old(self).focused_spec()) ==> {
                &&& r == LauncherWindowEffect::Hide
                &&& !final(self).visible_spec()
                &&& !final(self).focused_spec()
            },
            !(old(self).visible_spec() && old(self).focused_spec()) ==> {
                &&& r == LauncherWindowEffect::ShowAndFocus
                &&& final(self).visible_spec()
                &&& final(self).focused_spec()
            },
    {
        if self.visible && self.focused {
            self.hide_window();
            LauncherWindowEffect::Hide
        } else {
            self.show();
            LauncherWindowEffect::ShowAndFocus
        }
    }
}

/// Law: two global-hotkey toggles from a shown, focused launcher return it to
/// shown and focused, and from any state the second toggle undoes the first.
pub proof fn lemma_toggle_twice_shows(s0: LauncherWindowState, s1: LauncherWindowState, s2: LauncherWindowState)
    requires
        (s0.visible_spec() && s0.focused_spec()) ==> (!s1.visible_spec() && !s1.focused_spec()),
        !(s0.visible_spec() && s0.focused_spec()) ==> (s1.visible_spec() && s1.focused_spec()),
        (s1.visible_spec() && s1.focused_spec()) ==> (!s2.visible_spec() && !s2.focused_spec()),
        !(s1.visible_spec() && s1.focused_spec()) ==> (s2.visible_spec() && s2.focused_spec()),
    ensures
        (s0.visible_spec() && s0.focused_spec()) ==> (s2.visible_spec() && s2.focused_spec()),
        !(s0.visible_spec() && s0.focused_spec()) ==> (!s2.visible_spec() && !s2.focused_spec()),
{
}

/// A key that a shortcut's label names unambiguously: a named key, a function
/// key from F1 to F24, or an ASCII character that is no lower-case letter,
/// white space or `+`.
pub open spec fn labelled_key(k: HotkeyKey) -> bool {
    match k {
        HotkeyKey::Character(c) => (c as u32) < 128 && !('a' <= c && c <= 'z') && !is_ws(c) && c != '+',
        HotkeyKey::Function(n) => 1 <= n && n <= 24,
        HotkeyKey::Shift | HotkeyKey::Control | HotkeyKey::Alt | HotkeyKey::Command | HotkeyKey::Other => false,
        _ => true,
    }
}

/// A shortcut that parsing can give: Shift pressed twice, or distinct
/// modifiers with a labelled key.
pub open spec fn parsable_shortcut(w: ShortcutModel) -> bool {
    match w {
        ShortcutModel::DoubleShift => true,
        ShortcutModel::Chord(mods, key) => mods.len() > 0 && mods.no_duplicates() && labelled_key(key),
    }
}

/// A label part: not empty, no `+`, no white space at either end.
pub open spec fn clean_part(p: Seq<char>) -> bool {
    &&& p.len() > 0
    &&& !p.contains('+')
    &&& !is_ws(p[0])
    &&& !is_ws(p.last())
}

proof fn lemma_trim_clean(p: Seq<char>)
    requires
        p.len() > 0,
        !is_ws(p[0]),
        !is_ws(p.last()),
    ensures
        trim_ws(p) == p,
{
}

proof fn lemma_modifier_label(m: HotkeyModifier)
    ensures
        clean_part(modifier_label(m)),
        modifier_spec(modifier_label(m)) == Some(m),
        lower(modifier_label(m))[0] == 's' <==> m == HotkeyModifier::Shift,
        m == HotkeyModifier::Shift ==> modifier_label(m).len() == 5,
{
    reveal_strlit("Shift");
    reveal_strlit("Control");
    reveal_strlit("Alt");
    reveal_strlit("Command");
    reveal_strlit("shift");
    reveal_strlit("control");
    reveal_strlit("ctrl");
    reveal_strlit("alt");
    reveal_strlit("option");
    reveal_strlit("command");
    reveal_strlit("cmd");
    reveal_strlit("meta");
    reveal_strlit("super");
    let l = modifier_label(m);
    assert(!l.contains('+')) by {
        if l.contains('+') {
            let k = choose|k: int| 0 <= k < l.len() && l[k] == '+';
        }
    }
    match m {
        HotkeyModifier::Shift => {
            assert(lower(l) =~= "shift"@);
            assert(modifier_spec(l) == Some(m));
        },
        HotkeyModifier::Control => {
            assert(lower(l) =~= "control"@);
            assert(lower(l)[0] != "shift"@[0]);
            assert(modifier_spec(l) == Some(m));
        },
        HotkeyModifier::Alt => {
            assert(lower(l) =~= "alt"@);
            assert(lower(l)[0] != "shift"@[0]);
            assert(lower(l).len() != "control"@.len());
            assert(lower(l).len() != "ctrl"@.len());
            assert(modifier_spec(l) == Some(m));
        },
        HotkeyModifier::Command => {
            assert(lower(l) =~= "command"@);
            assert(lower(l)[0] != "shift"@[0]);
            assert(lower(l)[2] != "control"@[2]);
            assert(lower(l).len() != "ctrl"@.len());
            assert(lower(l).len() != "alt"@.len());
            assert(lower(l).len() != "option"@.len());
            assert(modifier_spec(l) == Some(m));
        },
    }
}

proof fn lemma_decimal_parses(n: u8)
    requires
        1 <= n <= 24,
    ensures
        parse_u8_spec(decimal(n as nat)) == Some(n),
        decimal(n as nat).len() > 0,
        forall|i: int| 0 <= i < decimal(n as nat).len() ==> is_digit(#[trigger] decimal(n as nat)[i]),
{
    let d = decimal(n as nat);
    assert forall|x: nat| x < 10 implies (#[trigger] digit_char(x) as u32) == 48 + x && is_digit(digit_char(x)) by {
        assert(('0' as u32) == 48);
    }
    assert(('0' as u32) == 48);
    reveal_with_fuel(digits_value, 3);
    if n < 10 {
        assert((digit_char(n as nat) as u32) == 48 + n);
        assert(d =~= seq![digit_char(n as nat)]);
        assert(unsigned_digits(d) == d);
        assert(d.drop_last() =~= Seq::<char>::empty());
        assert(digits_value(d) == n);
    } else {
        assert(decimal(n as nat / 10) =~= seq![digit_char(n as nat / 10)]);
        assert(d =~= seq![digit_char(n as nat / 10), digit_char(n as nat % 10)]);
        assert((digit_char(n as nat / 10) as u32) == 48 + n as nat / 10);
        assert((digit_char(n as nat % 10) as u32) == 48 + n as nat % 10);
        assert(unsigned_digits(d) == d);
        assert(d.drop_last() =~= seq![digit_char(n as nat / 10)]);
        assert(d.drop_last().drop_last() =~= Seq::<char>::empty());
        assert(digits_value(d.drop_last()) == n as nat / 10);
        assert(digits_value(d) == n);
    }
}

proof fn lemma_key_label(k: HotkeyKey)
    requires
        labelled_key(k),
    ensures
        clean_part(key_label(k)),
        modifier_spec(key_label(k)) is None,
        key_spec(key_label(k)) == Some(k),
{
    reveal_strlit("space");
    reveal_strlit("enter");
    reveal_strlit("return");
    reveal_strlit("escape");
    reveal_strlit("esc");
    reveal_strlit("tab");
    reveal_strlit("backspace");
    reveal_strlit("delete");
    reveal_strlit("del");
    reveal_strlit("arrowup");
    reveal_strlit("up");
    reveal_strlit("arrowdown");
    reveal_strlit("down");
    reveal_strlit("arrowleft");
    reveal_strlit("left");
    reveal_strlit("arrowright");
    reveal_strlit("right");
    reveal_strlit("shift");
    reveal_strlit("control");
    reveal_strlit("ctrl");
    reveal_strlit("alt");
    reveal_strlit("option");
    reveal_strlit("command");
    reveal_strlit("cmd");
    reveal_strlit("meta");
    reveal_strlit("super");
    reveal_strlit("Space");
    reveal_strlit("Enter");
    reveal_strlit("Escape");
    reveal_strlit("Tab");
    reveal_strlit("Backspace");
    reveal_strlit("Delete");
    reveal_strlit("ArrowUp");
    reveal_strlit("ArrowDown");
    reveal_strlit("ArrowLeft");
    reveal_strlit("ArrowRight");
    let l = key_label(k);
    match k {
        HotkeyKey::Character(c) => {
            assert(lower(l) =~= seq![crate::text::lower_char(c)]);
            assert(upper_char(crate::text::lower_char(c)) == c);
            assert(!l.contains('+')) by {
                if l.contains('+') {
                    let j = choose|j: int| 0 <= j < l.len() && l[j] == '+';
                }
            }
        },
        HotkeyKey::Function(n) => {
            lemma_decimal_parses(n);
            let d = decimal(n as nat);
            assert(lower(l) =~= seq!['f'] + d) by {
                assert forall|i: int| 0 <= i < d.len() implies crate::text::lower_char(#[trigger] d[i]) == d[i] by {
                    assert(is_digit(d[i]));
                }
                assert forall|i: int| 0 <= i < l.len() implies lower(l)[i] == (seq!['f'] + d)[i] by {
                    if i > 0 {
                        assert(l[i] == d[i - 1]);
                        assert(is_digit(d[i - 1]));
                    }
                }
            }
            assert(lower(l).drop_first() =~= d);
            assert(!l.contains('+')) by {
                if l.contains('+') {
                    let j = choose|j: int| 0 <= j < l.len() && l[j] == '+';
                    if j > 0 {
                        assert(l[j] == d[j - 1]);
                        assert(is_digit(d[j - 1]));
                    }
                }
            }
            assert(is_digit(l.last())) by {
                assert(l.last() == d[d.len() - 1]);
            }
        },
        HotkeyKey::Space => {
            assert(lower(l) =~= "space"@);
        },
        HotkeyKey::Enter => {
            assert(lower(l) =~= "enter"@);
        },
        HotkeyKey::Escape => {
            assert(lower(l) =~= "escape"@);
        },
        HotkeyKey::Tab => {
            assert(lower(l) =~= "tab"@);
        },
        HotkeyKey::Backspace => {
            assert(lower(l) =~= "backspace"@);
        },
        HotkeyKey::Delete => {
            assert(lower(l) =~= "delete"@);
        },
        HotkeyKey::ArrowUp => {
            assert(lower(l) =~= "arrowup"@);
        },
        HotkeyKey::ArrowDown => {
            assert(lower(l) =~= "arrowdown"@);
        },
        HotkeyKey::ArrowLeft => {
            assert(lower(l) =~= "arrowleft"@);
        },
        HotkeyKey::ArrowRight => {
            assert(lower(l) =~= "arrowright"@);
        },
        _ => {},
    }
}

/// The labels of the modifiers, in order.
pub open spec fn modifier_labels(mods: Seq<HotkeyModifier>) -> Seq<Seq<char>>
    decreases mods.len(),
{
    if mods.len() == 0 {
        Seq::empty()
    } else {
        modifier_labels(mods.drop_last()).push(modifier_label(mods.last()))
    }
}

proof fn lemma_split_no_sep(t: Seq<char>, sep: char)
    requires
        !t.contains(sep),
    ensures
        split_seq(t, sep) == seq![t],
    decreases t.len(),
{
    if t.len() > 0 {
        assert(!t.drop_last().contains(sep)) by {
            if t.drop_last().contains(sep) {
                let j = choose|j: int| 0 <= j < t.drop_last().len() && t.drop_last()[j] == sep;
                assert(t[j] == sep);
            }
        }
        lemma_split_no_sep(t.drop_last(), sep);
        assert(t.last() != sep) by {
            assert(t[t.len() - 1] == t.last());
        }
        assert(t.drop_last().push(t.last()) =~= t);
        assert(seq![t.drop_last()].update(0, t.drop_last().push(t.last())) =~= seq![t]);
    } else {
        assert(t =~= Seq::<char>::empty());
    }
}

proof fn lemma_split_join(a: Seq<char>, b: Seq<char>, sep: char)
    ensures
        split_seq(a + seq![sep] + b, sep) == split_seq(a, sep) + split_seq(b, sep),
    decreases b.len(),
{
    let s = a + seq![sep] + b;
    lemma_split_nonempty(a, sep);
    if b.len() == 0 {
        assert(s.drop_last() =~= a);
        assert(s.last() == sep);
        assert(split_seq(a, sep).push(Seq::<char>::empty()) =~= split_seq(a, sep) + seq![Seq::<char>::empty()]);
    } else {
        lemma_split_join(a, b.drop_last(), sep);
        lemma_split_nonempty(b.drop_last(), sep);
        assert(s.drop_last() =~= a + seq![sep] + b.drop_last());
        assert(s.last() == b.last());
        let pa = split_seq(a, sep);
        let pb = split_seq(b.drop_last(), sep);
        let p = pa + pb;
        if b.last() == sep {
            assert(p.push(Seq::<char>::empty()) =~= pa + pb.push(Seq::<char>::empty()));
        } else {
            assert(p.update(p.len() - 1, p.last().push(b.last())) =~= pa + pb.update(
                pb.len() - 1,
                pb.last().push(b.last()),
            ));
        }
    }
}

proof fn lemma_split_labels(mods: Seq<HotkeyModifier>, t: Seq<char>)
    ensures
        split_seq(modifiers_prefix(mods) + t, '+') == modifier_labels(mods) + split_seq(t, '+'),
    decreases mods.len(),
{
    if mods.len() == 0 {
        assert(modifiers_prefix(mods) + t =~= t);
        assert(modifier_labels(mods) + split_seq(t, '+') =~= split_seq(t, '+'));
    } else {
        let m = mods.last();
        let rest = mods.drop_last();
        let x = modifier_label(m) + seq!['+'] + t;
        assert(modifiers_prefix(mods) + t =~= modifiers_prefix(rest) + x);
        lemma_split_labels(rest, x);
        lemma_modifier_label(m);
        lemma_split_join(modifier_label(m), t, '+');
        lemma_split_no_sep(modifier_label(m), '+');
        assert(modifier_labels(rest) + (seq![modifier_label(m)] + split_seq(t, '+')) =~= modifier_labels(mods) + split_seq(
            t,
            '+',
        ));
    }
}

proof fn lemma_prefix_front(mods: Seq<HotkeyModifier>)
    requires
        mods.len() > 0,
    ensures
        modifiers_prefix(mods) == modifier_label(mods[0]) + seq!['+'] + modifiers_prefix(mods.drop_first()),
    decreases mods.len(),
{
    if mods.len() == 1 {
        assert(mods.drop_last() =~= Seq::<HotkeyModifier>::empty());
        assert(mods.drop_first() =~= Seq::<HotkeyModifier>::empty());
        assert(modifiers_prefix(mods) =~= modifier_label(mods[0]) + seq!['+']);
    } else {
        let rest = mods.drop_last();
        lemma_prefix_front(rest);
        assert(rest[0] == mods[0]);
        assert(rest.drop_first() =~= mods.drop_first().drop_last());
        assert(mods.drop_first().last() == mods.last());
        assert(modifiers_prefix(mods) =~= modifier_label(mods[0]) + seq!['+'] + modifiers_prefix(mods.drop_first()));
    }
}

proof fn lemma_fold_labels(mods: Seq<HotkeyModifier>)
    requires
        mods.no_duplicates(),
    ensures
        fold_parts(modifier_labels(mods)) == Some((mods, None::<HotkeyKey>)),
    decreases mods.len(),
{
    if mods.len() == 0 {
        assert(modifier_labels(mods) =~= Seq::<Seq<char>>::empty());
        assert(mods =~= Seq::<HotkeyModifier>::empty());
    } else {
        let m = mods.last();
        let rest = mods.drop_last();
        assert(rest.no_duplicates()) by {
            assert forall|a: int, b: int| 0 <= a < rest.len() && 0 <= b < rest.len() && a != b implies rest[a] != rest[b] by {
                assert(rest[a] == mods[a] && rest[b] == mods[b]);
            }
        }
        lemma_fold_labels(rest);
        lemma_modifier_label(m);
        lemma_trim_clean(modifier_label(m));
        assert(!rest.contains(m)) by {
            if rest.contains(m) {
                let j = choose|j: int| 0 <= j < rest.len() && rest[j] == m;
                assert(mods[j] == mods[mods.len() - 1]);
            }
        }
        assert(modifier_labels(mods).drop_last() =~= modifier_labels(rest));
        assert(rest.push(m) =~= mods);
    }
}

/// Law: the label of a shortcut that parsing can give parses back to the same
/// shortcut.
pub proof fn lemma_label_parses_back(w: ShortcutModel)
    requires
        parsable_shortcut(w),
    ensures
        parse_shortcut_spec(label_spec(w)) == Some(w),
{
    reveal_strlit("Shift+Shift");
    reveal_strlit("shift");
    match w {
        ShortcutModel::DoubleShift => {
            lemma_trim_clean("Shift+Shift"@);
        },
        ShortcutModel::Chord(mods, k) => {
            let kl = key_label(k);
            let l = label_spec(w);
            lemma_key_label(k);
            lemma_prefix_front(mods);
            lemma_modifier_label(mods[0]);
            let first = modifier_label(mods[0]);
            let rest = modifiers_prefix(mods.drop_first()) + kl;
            assert(l =~= first + seq!['+'] + rest);
            assert(l[0] == first[0]);
            assert(l.last() == kl.last());
            lemma_trim_clean(l);
            assert(lower(l) != lower("Shift+Shift"@)) by {
                let target = lower("Shift+Shift"@);
                if lower(l) == target {
                    assert(target[0] == 's');
                    assert(lower(l)[0] == lower(first)[0]);
                    assert(mods[0] == HotkeyModifier::Shift);
                    assert(first.len() == 5);
                    assert("Shift+Shift"@.len() == 11);
                    assert(target.len() == 11);
                    assert(l.len() == lower(l).len());
                    assert(l.len() == first.len() + 1 + rest.len());
                    assert(rest.len() == 5);
                    assert(lower(rest) =~= target.subrange(6, 11));
                    assert(target.subrange(6, 11) =~= "shift"@);
                    if mods.len() >= 2 {
                        let more = mods.drop_first();
                        lemma_prefix_front(more);
                        lemma_modifier_label(more[0]);
                        let j = modifier_label(more[0]).len();
                        assert(rest[j as int] == '+');
                        assert(lower(rest)[j as int] == '+');
                        assert("shift"@[j as int] != '+');
                    } else {
                        assert(mods.drop_first() =~= Seq::<HotkeyModifier>::empty());
                        assert(rest =~= kl);
                        assert(lower(kl) == "shift"@);
                    }
                }
            }
            lemma_split_labels(mods, kl);
            lemma_split_no_sep(kl, '+');
            lemma_fold_labels(mods);
            lemma_trim_clean(kl);
            let parts = split_seq(l, '+');
            assert(parts =~= modifier_labels(mods).push(kl));
            assert(parts.drop_last() =~= modifier_labels(mods));
        },
    }
}

proof fn lemma_split_parts_lack_sep(s: Seq<char>, sep: char)
    ensures
        forall|i: int| 0 <= i < split_seq(s, sep).len() ==> !(#[trigger] split_seq(s, sep)[i]).contains(sep),
    decreases s.len(),
{
    if s.len() > 0 {
        lemma_split_parts_lack_sep(s.drop_last(), sep);
        lemma_split_nonempty(s.drop_last(), sep);
        let p = split_seq(s.drop_last(), sep);
        if s.last() != sep {
            let q = p.last().push(s.last());
            assert(!q.contains(sep)) by {
                if q.contains(sep) {
                    let j = choose|j: int| 0 <= j < q.len() && q[j] == sep;
                    if j < p.last().len() {
                        assert(p[p.len() - 1][j] == sep);
                        assert(p[p.len() - 1].contains(sep));
                    }
                }
            }
            assert forall|i: int| 0 <= i < split_seq(s, sep).len() implies !(#[trigger] split_seq(s, sep)[i]).contains(sep) by {
                if i < p.len() - 1 {
                    assert(split_seq(s, sep)[i] == p[i]);
                }
            }
        } else {
            assert forall|i: int| 0 <= i < split_seq(s, sep).len() implies !(#[trigger] split_seq(s, sep)[i]).contains(sep) by {
                if i < p.len() {
                    assert(split_seq(s, sep)[i] == p[i]);
                } else {
                    assert(split_seq(s, sep)[i] =~= Seq::<char>::empty());
                }
            }
        }
    }
}

proof fn lemma_fold_gives_parsable(parts: Seq<Seq<char>>)
    requires
        forall|i: int| 0 <= i < parts.len() ==> !(#[trigger] parts[i]).contains('+'),
    ensures
        fold_parts(parts) matches Some((mods, key)) ==> mods.no_duplicates() && (key matches Some(k) ==> labelled_key(k)),
    decreases parts.len(),
{
    if parts.len() > 0 {
        let rest = parts.drop_last();
        assert forall|i: int| 0 <= i < rest.len() implies !(#[trigger] rest[i]).contains('+') by {
            assert(rest[i] == parts[i]);
        }
        lemma_fold_gives_parsable(rest);
        if let Some((mods, key)) = fold_parts(rest) {
            let part = trim_ws(parts.last());
            if part.len() > 0 {
                match modifier_spec(part) {
                    Some(m) => {
                        if !mods.contains(m) {
                            assert(mods.push(m).no_duplicates()) by {
                                assert forall|a: int, b: int| 0 <= a < mods.push(m).len() && 0 <= b < mods.push(m).len() && a != b implies mods.push(m)[a] != mods.push(m)[b] by {
                                    if a == mods.len() {
                                        assert(mods.push(m)[b] == mods[b]);
                                    } else if b == mods.len() {
                                        assert(mods.push(m)[a] == mods[a]);
                                    }
                                }
                            }
                        }
                    },
                    None => {
                        if key.is_none() {
                            lemma_key_spec_labelled(parts.last());
                        }
                    },
                }
            }
        }
    }
}

/// What `key_spec` gives for a trimmed part without `+` is a labelled key.
proof fn lemma_key_spec_labelled(raw: Seq<char>)
    requires
        !raw.contains('+'),
    ensures
        trim_ws(raw).len() > 0 ==> (key_spec(trim_ws(raw)) matches Some(k) ==> labelled_key(k)),
{
    let part = trim_ws(raw);
    lemma_trim_within(raw);
    if part.len() == 1 {
        let l = lower(part);
        let c = l[0];
        assert(part[0] != '+') by {
            assert(raw.contains(part[0]));
        }
        assert(!is_ws(part[0]));
        assert(c == crate::text::lower_char(part[0]));
        assert(!is_ws(c));
        assert(c != '+');
    }
}

/// Trimming keeps a sub-range of the text whose ends are no white space.
proof fn lemma_trim_within(s: Seq<char>)
    ensures
        forall|i: int| 0 <= i < trim_ws(s).len() ==> s.contains(#[trigger] trim_ws(s)[i]),
        trim_ws(s).len() > 0 ==> !is_ws(trim_ws(s)[0]) && !is_ws(trim_ws(s).last()),
{
    lemma_trim_start_within(s);
    lemma_trim_end_within(trim_start_ws(s));
    let a = trim_start_ws(s);
    let b = trim_ws(s);
    if b.len() > 0 {
        assert(b[0] == a[0]);
    }
    assert forall|i: int| 0 <= i < b.len() implies s.contains(#[trigger] b[i]) by {
        assert(a.contains(b[i]));
        let j = choose|j: int| 0 <= j < a.len() && a[j] == b[i];
        assert(s.contains(a[j]));
    }
}

proof fn lemma_trim_start_within(s: Seq<char>)
    ensures
        forall|i: int| 0 <= i < trim_start_ws(s).len() ==> s.contains(#[trigger] trim_start_ws(s)[i]),
        trim_start_ws(s).len() > 0 ==> !is_ws(trim_start_ws(s)[0]),
        trim_start_ws(s).len() <= s.len(),
        trim_start_ws(s) == s.subrange(s.len() - trim_start_ws(s).len(), s.len() as int),
    decreases s.len(),
{
    if s.len() > 0 && is_ws(s[0]) {
        lemma_trim_start_within(s.drop_first());
        let t = trim_start_ws(s);
        assert forall|i: int| 0 <= i < t.len() implies s.contains(#[trigger] t[i]) by {
            let j = choose|j: int| 0 <= j < s.drop_first().len() && s.drop_first()[j] == t[i];
            assert(s[j + 1] == t[i]);
        }
        assert(s.drop_first().subrange(s.drop_first().len() - t.len(), s.drop_first().len() as int) =~= s.subrange(
            s.len() - t.len(),
            s.len() as int,
        ));
    } else {
        assert(s.subrange(0, s.len() as int) =~= s);
        assert forall|i: int| 0 <= i < s.len() implies s.contains(#[trigger] s[i]) by {}
    }
}

proof fn lemma_trim_end_within(s: Seq<char>)
    ensures
        forall|i: int| 0 <= i < trim_end_ws(s).len() ==> s.contains(#[trigger] trim_end_ws(s)[i]),
        trim_end_ws(s).len() > 0 ==> !is_ws(trim_end_ws(s).last()) && trim_end_ws(s)[0] == s[0],
    decreases s.len(),
{
    if s.len() > 0 && is_ws(s.last()) {
        lemma_trim_end_within(s.drop_last());
        let t = trim_end_ws(s);
        assert forall|i: int| 0 <= i < t.len() implies s.contains(#[trigger] t[i]) by {
            let j = choose|j: int| 0 <= j < s.drop_last().len() && s.drop_last()[j] == t[i];
            assert(s[j] == t[i]);
        }
    } else {
        assert forall|i: int| 0 <= i < s.len() implies s.contains(#[trigger] s[i]) by {}
    }
}

/// Law: every shortcut that parsing gives is one whose label parses back to
/// it.
pub proof fn lemma_parsed_shortcuts_are_parsable(value: Seq<char>)
    ensures
        parse_shortcut_spec(value) matches Some(w) ==> parsable_shortcut(w),
{
    let t = trim_ws(value);
    lemma_split_parts_lack_sep(t, '+');
    lemma_fold_gives_parsable(split_seq(t, '+'));
    if lower(t) != lower("Shift+Shift"@) {
        if let Some((mods, Some(k))) = fold_parts(split_seq(t, '+')) {
            assert(labelled_key(k));
            assert(mods.no_duplicates());
        }
    }
}

} // verus!
