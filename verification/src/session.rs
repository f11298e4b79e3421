//! The session of one remote viewer: a state machine from the state and a
//! textual command to the next state, the textual answer and what the
//! connection has to do with its ingestion pipeline.
use vstd::prelude::*;
use vstd::string::StrSliceExecFns;
use vstd::string::StringExecFns;
use crate::lifecycle::Lifecycle;
use crate::remote_types::bin_lifecycles;
use crate::remote_types::BinDltMsg;
use crate::remote_types::BinType;

verus! {

/// A command as the client wrote it.
#[derive(Debug, PartialEq, Eq)]
pub enum Command {
    /// `open` and, behind one blank, the path of the file to ingest.
    Open { path: String },
    /// `close`.
    Close,
    /// `open` without a path.
    Incomplete,
    /// Anything else; the text is kept for the answer.
    Unknown { text: String },
}

/// The mathematical value of a [`Command`].
pub enum CommandView {
    Open { path: Seq<char> },
    Close,
    Incomplete,
    Unknown { text: Seq<char> },
}

impl View for Command {
    type V = CommandView;

    open spec fn view(&self) -> CommandView {
        match self {
            Command::Open { path } => CommandView::Open { path: path@ },
            Command::Close => CommandView::Close,
            Command::Incomplete => CommandView::Incomplete,
            Command::Unknown { text } => CommandView::Unknown { text: text@ },
        }
    }
}

/// The state of a session.
#[derive(Debug, PartialEq, Eq)]
pub enum SessionState {
    /// No file is open.
    Idle,
    /// The file at `path` is open and its pipeline runs.
    Active { path: String },
    /// The connection has ended.
    Closed,
}

/// The mathematical value of a [`SessionState`].
pub enum StateView {
    Idle,
    Active { path: Seq<char> },
    Closed,
}

impl View for SessionState {
    type V = StateView;

    open spec fn view(&self) -> StateView {
        match self {
            SessionState::Idle => StateView::Idle,
            SessionState::Active { path } => StateView::Active { path: path@ },
            SessionState::Closed => StateView::Closed,
        }
    }
}

/// What the connection has to do after a command or at its end.
#[derive(Debug, PartialEq, Eq)]
pub enum Action {
    /// Nothing.
    Nothing,
    /// Start the ingestion pipeline for the file at `path`.
    Start { path: String },
    /// Stop the pipeline of the session: let it drain, then release it.
    Stop,
}

/// The mathematical value of an [`Action`].
pub enum ActionView {
    Nothing,
    Start { path: Seq<char> },
    Stop,
}

impl View for Action {
    type V = ActionView;

    open spec fn view(&self) -> ActionView {
        match self {
            Action::Nothing => ActionView::Nothing,
            Action::Start { path } => ActionView::Start { path: path@ },
            Action::Stop => ActionView::Stop,
        }
    }
}

/// The answer to a command: one textual frame and an action.
#[derive(Debug, PartialEq, Eq)]
pub struct Reply {
    pub text: String,
    pub action: Action,
}

/// The command that a text is.
pub open spec fn command_of(text: Seq<char>) -> CommandView {
    if text == "close"@ {
        CommandView::Close
    } else if "open "@.is_prefix_of(text) && text.len() > "open "@.len() {
        CommandView::Open { path: text.skip("open "@.len() as int) }
    } else if text == "open"@ || text == "open "@ {
        CommandView::Incomplete
    } else {
        CommandView::Unknown { text }
    }
}

/// The state after a command.
pub open spec fn next_state(state: StateView, command: CommandView) -> StateView {
    match (state, command) {
        (StateView::Idle, CommandView::Open { path }) => StateView::Active { path },
        (StateView::Active { path }, CommandView::Close) => StateView::Idle,
        _ => state,
    }
}

/// What the connection has to do after a command.
pub open spec fn action_for(state: StateView, command: CommandView) -> ActionView {
    match (state, command) {
        (StateView::Idle, CommandView::Open { path }) => ActionView::Start { path },
        (StateView::Active { path }, CommandView::Close) => ActionView::Stop,
        _ => ActionView::Nothing,
    }
}

/// The text of the answer to a command.
pub open spec fn answer(state: StateView, command: CommandView) -> Seq<char> {
    match (state, command) {
        (StateView::Closed, _) => "err: session is closed!"@,
        (_, CommandView::Unknown { text }) => "err: unknown command '"@ + text + "'!"@,
        (_, CommandView::Incomplete) => "err: open failed as no file is named!"@,
        (StateView::Idle, CommandView::Open { path }) => "ok: open "@ + path,
        (StateView::Active { path }, CommandView::Open { path: other }) =>
            "err: open failed as file '"@ + path + "' is open. close first!"@,
        (StateView::Idle, CommandView::Close) => "err: close failed as no file open. open first!"@,
        (StateView::Active { path }, CommandView::Close) => "ok: close"@,
    }
}

/// Whether a command is carried out in a state: an `open` while no file is
/// open, and a `close` while one is. Every other command is refused.
pub open spec fn accepted(state: StateView, command: CommandView) -> bool {
    (state is Idle && command is Open) || (state is Active && command is Close)
}

/// Whether an answer reports a failure: its text begins with `err: `.
pub open spec fn is_error(text: Seq<char>) -> bool {
    "err: "@.is_prefix_of(text)
}

/// A `close` while no file is open is answered with one error text, which
/// says that no file is open, and leaves the session as it was: an `open`
/// that follows opens its file.
pub proof fn lemma_close_without_open(path: Seq<char>)
    ensures
        next_state(StateView::Idle, CommandView::Close) == StateView::Idle,
        action_for(StateView::Idle, CommandView::Close) == ActionView::Nothing,
        answer(StateView::Idle, CommandView::Close)
            == "err: close failed as no file open. open first!"@,
        is_error(answer(StateView::Idle, CommandView::Close)),
        next_state(
            next_state(StateView::Idle, CommandView::Close),
            CommandView::Open { path },
        ) == (StateView::Active { path }),
        action_for(
            next_state(StateView::Idle, CommandView::Close),
            CommandView::Open { path },
        ) == (ActionView::Start { path }),
{
    reveal_strlit("err: close failed as no file open. open first!");
    reveal_strlit("err: ");
    let text = "err: close failed as no file open. open first!"@;
    assert(text.subrange(0, 5) =~= "err: "@);
}

/// An `open` while a file is open is answered with an error text that names
/// the open file; the open file stays open and its pipeline is left alone.
pub proof fn lemma_open_while_open(path: Seq<char>, other: Seq<char>)
    ensures
        next_state(StateView::Active { path }, CommandView::Open { path: other }) == (
        StateView::Active { path }),
        action_for(StateView::Active { path }, CommandView::Open { path: other })
            == ActionView::Nothing,
        is_error(answer(StateView::Active { path }, CommandView::Open { path: other })),
{
    reveal_strlit("err: open failed as file '");
    reveal_strlit("err: ");
    let text = answer(StateView::Active { path }, CommandView::Open { path: other });
    assert(text.subrange(0, 5) =~= "err: "@);
}

/// The answer to a command reports a failure exactly if the command is
/// refused.
pub proof fn lemma_refusals_are_errors(state: StateView, command: CommandView)
    ensures
        is_error(answer(state, command)) <==> !accepted(state, command),
{
    reveal_strlit("err: ");
    reveal_strlit("err: session is closed!");
    reveal_strlit("err: unknown command '");
    reveal_strlit("err: open failed as no file is named!");
    reveal_strlit("ok: open ");
    reveal_strlit("err: open failed as file '");
    reveal_strlit("err: close failed as no file open. open first!");
    reveal_strlit("ok: close");
    let text = answer(state, command);
    if accepted(state, command) {
        assert(text.len() >= 5 ==> text.subrange(0, 5)[0] == 'o');
        assert("err: "@[0] == 'e');
    } else {
        assert(text.subrange(0, 5) =~= "err: "@);
    }
}

/// Every command leaves a session in one of its states, and only two
/// commands change the state: an `open` while no file is open, and a `close`
/// while one is. A closed session stays closed.
pub proof fn lemma_transitions(state: StateView, command: CommandView)
    ensures
        next_state(state, command) != state ==> (state is Idle && command is Open && next_state(
            state,
            command,
        ) is Active) || (state is Active && command is Close && next_state(state, command) is Idle),
        state is Closed ==> next_state(state, command) is Closed,
        action_for(state, command) is Start <==> state is Idle && command is Open,
        action_for(state, command) is Stop <==> state is Active && command is Close,
{
}

/// Whether `text` begins with `prefix`.
pub fn starts_with(text: &str, prefix: &str) -> (b: bool)
    ensures
        b == prefix@.is_prefix_of(text@),
{
    let n: usize = prefix.unicode_len();
    if text.unicode_len() < n {
        return false;
    }
    let mut i: usize = 0;
    while i < n
        invariant
            i <= n,
            n == prefix@.len(),
            n <= text@.len(),
            forall|j: int| 0 <= j < i ==> text@[j] == prefix@[j],
        decreases n - i,
    {
        if text.get_char(i) != prefix.get_char(i) {
            return false;
        }
        i = i + 1;
    }
    assert(text@.subrange(0, n as int) =~= prefix@);
    true
}

/// Whether two texts are the same.
pub fn same_text(a: &str, b: &str) -> (same: bool)
    ensures
        same == (a@ == b@),
{
    if a.unicode_len() != b.unicode_len() {
        return false;
    }
    let prefixed = starts_with(a, b);
    assert(b@.is_prefix_of(a@) ==> a@ =~= b@);
    prefixed
}

/// Reads a command.
pub fn parse_command(text: &str) -> (command: Command)
    ensures
        command@ == command_of(text@),
{
    if same_text(text, "close") {
        return Command::Close;
    }
    let n: usize = text.unicode_len();
    let verb: usize = "open ".unicode_len();
    if starts_with(text, "open ") && n > verb {
        let path = String::from_str(text.substring_char(verb, n));
        assert(path@ =~= text@.skip(verb as int));
        return Command::Open { path };
    }
    if same_text(text, "open") || same_text(text, "open ") {
        return Command::Incomplete;
    }
    Command::Unknown { text: String::from_str(text) }
}

/// What the pipeline of a session has to tell the viewer.
#[derive(Debug, PartialEq, Eq)]
pub enum PipelineEvent {
    /// So many records were ingested so far.
    Progress { nr_msgs: u32 },
    /// The lifecycles as they stand, in the order of their ids.
    Lifecycles { lifecycles: Vec<Lifecycle> },
    /// Records for the viewer.
    Messages { messages: Vec<BinDltMsg> },
}

/// The id of the stream that follows the stream `id`: the next number, and
/// one again after the largest.
pub open spec fn following_stream(id: u32) -> u32 {
    if id == u32::MAX {
        1
    } else {
        (id + 1) as u32
    }
}

/// The session of one connection.
pub struct Session {
    state: SessionState,
    last_error: Option<String>,
    stream_id: u32,
}

impl Session {
    /// The state of the session.
    pub closed spec fn state(&self) -> StateView {
        self.state@
    }

    /// The text of the last answer that reported a failure.
    pub closed spec fn last_error(&self) -> Option<Seq<char>> {
        match self.last_error {
            Some(text) => Some(text@),
            None => None,
        }
    }

    /// The id of the stream of records of the file that is open, or was
    /// open last; zero before the first file is opened.
    pub closed spec fn stream_id(&self) -> u32 {
        self.stream_id
    }

    /// The session of a connection that was just accepted.
    pub fn new() -> (session: Session)
        ensures
            session.state() == StateView::Idle,
            session.last_error() is None,
            session.stream_id() == 0,
    {
        Session { state: SessionState::Idle, last_error: None, stream_id: 0 }
    }

    /// The id of the stream of records of the file that is open.
    pub fn current_stream(&self) -> (id: u32)
        ensures
            id == self.stream_id(),
    {
        self.stream_id
    }

    /// The binary frame that tells the viewer of an event of the pipeline.
    /// Frames are pushed only while a file is open; records go out under the
    /// id of the stream of that file.
    pub fn frame_for(&self, event: PipelineEvent) -> (frame: Option<BinType>)
        ensures
            frame is Some <==> self.state() is Active,
            frame matches Some(pushed) ==> match event {
                PipelineEvent::Progress { nr_msgs } => pushed matches BinType::FileInfo(info)
                    && info.nr_msgs == nr_msgs,
                PipelineEvent::Lifecycles { lifecycles } => pushed matches BinType::Lifecycles(list)
                    && list@ == bin_lifecycles(lifecycles@),
                PipelineEvent::Messages { messages } => pushed matches BinType::DltMsgs(batch)
                    && batch.0 == self.stream_id() && batch.1 == messages,
            },
    {
        if !self.is_active() {
            return None;
        }
        match event {
            PipelineEvent::Progress { nr_msgs } => Some(BinType::file_info(nr_msgs)),
            PipelineEvent::Lifecycles { lifecycles } => Some(BinType::lifecycles(&lifecycles)),
            PipelineEvent::Messages { messages } => Some(BinType::messages(self.stream_id, messages)),
        }
    }

    /// The text of the last answer that reported a failure.
    pub fn last_error_text(&self) -> (text: Option<String>)
        ensures
            match text {
                Some(t) => self.last_error() == Some(t@),
                None => self.last_error() is None,
            },
    {
        match &self.last_error {
            Some(text) => Some(text.clone()),
            None => None,
        }
    }

    /// Whether a file is open.
    pub fn is_active(&self) -> (b: bool)
        ensures
            b == (self.state() is Active),
    {
        match &self.state {
            SessionState::Active { path } => true,
            _ => false,
        }
    }

    /// Whether the connection has ended.
    pub fn is_closed(&self) -> (b: bool)
        ensures
            b == (self.state() is Closed),
    {
        match &self.state {
            SessionState::Closed => true,
            _ => false,
        }
    }

    /// Takes one command of the client and gives the answer to send.
    pub fn handle(&mut self, text: &str) -> (reply: Reply)
        ensures
            final(self).state() == next_state(old(self).state(), command_of(text@)),
            reply.text@ == answer(old(self).state(), command_of(text@)),
            reply.action@ == action_for(old(self).state(), command_of(text@)),
            final(self).last_error() == (if accepted(old(self).state(), command_of(text@)) {
                old(self).last_error()
            } else {
                Some(reply.text@)
            }),
            final(self).stream_id() == (if next_state(old(self).state(), command_of(text@))
                is Active && old(self).state() is Idle {
                following_stream(old(self).stream_id())
            } else {
                old(self).stream_id()
            }),
    {
        let command = parse_command(text);
        self.apply(command)
    }

    /// Takes one command that was read already.
    pub fn apply(&mut self, command: Command) -> (reply: Reply)
        ensures
            final(self).state() == next_state(old(self).state(), command@),
            reply.text@ == answer(old(self).state(), command@),
            reply.action@ == action_for(old(self).state(), command@),
            final(self).last_error() == (if accepted(old(self).state(), command@) {
                old(self).last_error()
            } else {
                Some(reply.text@)
            }),
            final(self).stream_id() == (if next_state(old(self).state(), command@) is Active
                && old(self).state() is Idle {
                following_stream(old(self).stream_id())
            } else {
                old(self).stream_id()
            }),
    {
        let mut open_path: Option<String> = None;
        let mut closed: bool = false;
        match &self.state {
            SessionState::Closed => {
                closed = true;
            },
            SessionState::Active { path } => {
                open_path = Some(path.clone());
            },
            SessionState::Idle => {},
        }
        if closed {
            return self.refuse(String::from_str("err: session is closed!"));
        }
        match command {
            Command::Unknown { text } => {
                let mut answer = String::from_str("err: unknown command '");
                answer.append(text.as_str());
                answer.append("'!");
                self.refuse(answer)
            },
            Command::Incomplete => self.refuse(
                String::from_str("err: open failed as no file is named!"),
            ),
            Command::Open { path } => {
                match open_path {
                    Some(current) => {
                        let mut answer = String::from_str("err: open failed as file '");
                        answer.append(current.as_str());
                        answer.append("' is open. close first!");
                        self.refuse(answer)
                    },
                    None => {
                        let mut answer = String::from_str("ok: open ");
                        answer.append(path.as_str());
                        self.state = SessionState::Active { path: path.clone() };
                        self.stream_id = if self.stream_id == u32::MAX {
                            1
                        } else {
                            self.stream_id + 1
                        };
                        Reply { text: answer, action: Action::Start { path } }
                    },
                }
            },
            Command::Close => {
                match open_path {
                    Some(current) => {
                        self.state = SessionState::Idle;
                        Reply { text: String::from_str("ok: close"), action: Action::Stop }
                    },
                    None => self.refuse(
                        String::from_str("err: close failed as no file open. open first!"),
                    ),
                }
            },
        }
    }

    /// The answer that refuses a command with `text`, which is kept as the
    /// last error.
    fn refuse(&mut self, text: String) -> (reply: Reply)
        ensures
            final(self).state() == old(self).state(),
            final(self).stream_id() == old(self).stream_id(),
            final(self).last_error() == Some(text@),
            reply.text@ == text@,
            reply.action@ == ActionView::Nothing,
    {
        self.last_error = Some(text.clone());
        Reply { text, action: Action::Nothing }
    }

    /// The connection has ended, in whatever state: the session is closed for
    /// good, and a pipeline that runs has to stop.
    pub fn disconnect(&mut self) -> (action: Action)
        ensures
            final(self).state() == StateView::Closed,
            final(self).last_error() == old(self).last_error(),
            final(self).stream_id() == old(self).stream_id(),
            action@ == (if old(self).state() is Active {
                ActionView::Stop
            } else {
                ActionView::Nothing
            }),
    {
        let active = self.is_active();
        self.state = SessionState::Closed;
        if active {
            Action::Stop
        } else {
            Action::Nothing
        }
    }

    /// The pipeline that an `open` asked for could not be started: no file is
    /// open then.
    pub fn open_failed(&mut self) -> (reply: Reply)
        ensures
            final(self).state() == (if old(self).state() is Active {
                StateView::Idle
            } else {
                old(self).state()
            }),
            reply.action@ == ActionView::Nothing,
            final(self).last_error() == Some(reply.text@),
            final(self).stream_id() == old(self).stream_id(),
            old(self).state() matches StateView::Active { path } ==> reply.text@
                == "err: open '"@ + path + "' failed!"@,
            !(old(self).state() is Active) ==> reply.text@ == "err: no file open!"@,
    {
        let mut open_path: Option<String> = None;
        match &self.state {
            SessionState::Active { path } => {
                open_path = Some(path.clone());
            },
            _ => {},
        }
        match open_path {
            Some(path) => {
                self.state = SessionState::Idle;
                let mut answer = String::from_str("err: open '");
                answer.append(path.as_str());
                answer.append("' failed!");
                self.refuse(answer)
            },
            None => self.refuse(String::from_str("err: no file open!")),
        }
    }
}

} // verus!
