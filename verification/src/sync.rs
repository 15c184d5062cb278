//! Keeping local copies of the delegation files up to date: the states a
//! download task goes through and what is to be done in each. Fetching and
//! storing are left to the caller, who reports back what came of them.

use vstd::prelude::*;
use vstd::string::StringExecFns;

use crate::text::{chars_equal, same_text, to_chars};

verus! {

/// How a file is fetched.
#[derive(Debug, Copy, Clone, PartialEq, Eq, Structural)]
pub enum Protocol {
    Http,
    Https,
}

impl Protocol {
    /// The protocol of a URL scheme, if it is one that files are fetched with.
    pub open spec fn of_scheme(scheme: Seq<char>) -> Option<Protocol> {
        if scheme == "http"@ {
            Some(Protocol::Http)
        } else if scheme == "https"@ {
            Some(Protocol::Https)
        } else {
            None
        }
    }

    /// The protocol of the URL scheme `scheme`; `None` for any scheme but
    /// `http` and `https`.
    pub fn from_scheme(scheme: &str) -> (r: Option<Protocol>)
        ensures
            r == Protocol::of_scheme(scheme@),
    {
        if same_text(scheme, "http") {
            Some(Protocol::Http)
        } else if same_text(scheme, "https") {
            Some(Protocol::Https)
        } else {
            None
        }
    }
}

/// Where a task stands.
#[derive(Debug, Clone, PartialEq, Eq)]
pub enum State {
    /// Nothing has been done yet.
    Init,
    /// The checksum file is to be fetched and held against the local one.
    UpdateMd5File,
    /// The file itself is to be fetched.
    UpdateFile,
    /// The local copy is up to date.
    Success,
    /// The task was given up, for the reason told.
    Failure(String),
}

impl State {
    /// Whether the task has come to its end.
    pub open spec fn is_final(&self) -> bool {
        self is Success || self is Failure
    }
}

/// What the caller is to do for a task that was run.
#[derive(Debug, Clone, PartialEq, Eq)]
pub enum Action {
    /// Nothing.
    Nothing,
    /// Report the given state back as the task's next state.
    Announce(State),
    /// Fetch the checksum file and report what `md5_verdict` makes of it.
    FetchMd5,
    /// Fetch the file and report what `file_verdict` makes of it.
    FetchFile,
}

/// What is to be done with the local files after a fetch.
#[derive(Debug, Copy, Clone, PartialEq, Eq, Structural)]
pub enum Effect {
    /// Leave them as they are.
    Keep,
    /// Store what was fetched as the local checksum file.
    WriteMd5,
    /// Store what was fetched as the local file.
    WriteFile,
    /// Delete the local checksum file, so that the next run fetches anew.
    RemoveMd5,
}

/// The outcome of a fetch: the task's next state and what to do with the
/// local files.
#[derive(Debug, Clone, PartialEq, Eq)]
pub struct Verdict {
    pub state: State,
    pub effect: Effect,
}

/// The name of the file of IANA itself, which has no checksum file.
pub open spec fn iana_file_name() -> Seq<char> {
    "delegated-iana-latest"@
}

/// The state a task begins in: the file of IANA is fetched at once, any other
/// file only after its checksum file.
pub open spec fn initial_state(filename: Seq<char>) -> State {
    if filename == iana_file_name() {
        State::UpdateFile
    } else {
        State::Init
    }
}

/// The download of one delegation file.
#[derive(Debug, Clone, PartialEq, Eq)]
pub struct Task {
    pub index: usize,
    pub fileuri: String,
    pub filename: String,
    pub md5_fileuri: String,
    pub md5_filename: String,
    pub protocol: Protocol,
    pub state: State,
    pub lock: bool,
}

impl Task {
    /// The task that fetches `url` into the file `filename`. Its checksum
    /// file has the same URL and name with `.md5` appended.
    pub fn new(index: usize, filename: &str, url: &str, protocol: Protocol) -> (r: Task)
        ensures
            r.index == index,
            r.filename@ == filename@,
            r.fileuri@ == url@,
            r.md5_filename@ == filename@ + ".md5"@,
            r.md5_fileuri@ == url@ + ".md5"@,
            r.protocol == protocol,
            r.state == initial_state(filename@),
            !r.lock,
    {
        let state = if same_text(filename, "delegated-iana-latest") {
            State::UpdateFile
        } else {
            State::Init
        };
        Task {
            index,
            fileuri: String::from_str(url),
            filename: String::from_str(filename),
            md5_fileuri: String::from_str(url).concat(".md5"),
            md5_filename: String::from_str(filename).concat(".md5"),
            protocol,
            state,
            lock: false,
        }
    }

    /// What running the task asks of the caller.
    pub open spec fn action(&self) -> Action {
        if self.lock {
            Action::Nothing
        } else {
            match self.state {
                State::Init => Action::Announce(State::UpdateMd5File),
                State::UpdateMd5File => Action::FetchMd5,
                State::UpdateFile => Action::FetchFile,
                State::Success => Action::Nothing,
                State::Failure(_) => Action::Nothing,
            }
        }
    }

    /// Whether the task waits for a report after it was run.
    pub open spec fn locks(&self) -> bool {
        self.lock || !self.state.is_final()
    }

    /// Runs the task: tells what is to be done for it and locks it until the
    /// outcome is reported. A locked task and a task at its end ask for nothing.
    pub fn run(&mut self) -> (action: Action)
        ensures
            action == old(self).action(),
            final(self).lock == old(self).locks(),
            final(self).index == old(self).index,
            final(self).state == old(self).state,
            final(self).protocol == old(self).protocol,
            final(self).fileuri == old(self).fileuri,
            final(self).filename == old(self).filename,
            final(self).md5_fileuri == old(self).md5_fileuri,
            final(self).md5_filename == old(self).md5_filename,
    {
        if self.lock {
            return Action::Nothing;
        }
        match self.state {
            State::Init => {
                self.lock = true;
                Action::Announce(State::UpdateMd5File)
            },
            State::UpdateMd5File => {
                self.lock = true;
                Action::FetchMd5
            },
            State::UpdateFile => {
                self.lock = true;
                Action::FetchFile
            },
            State::Success => Action::Nothing,
            State::Failure(_) => Action::Nothing,
        }
    }

    /// Whether the task has come to its end.
    pub fn is_finished(&self) -> (r: bool)
        ensures
            r == self.state.is_final(),
    {
        match self.state {
            State::Success => true,
            State::Failure(_) => true,
            _ => false,
        }
    }

    /// Takes the report of the task's next state and unlocks the task.
    pub fn report(&mut self, state: State)
        ensures
            final(self).state == state,
            !final(self).lock,
            final(self).index == old(self).index,
            final(self).protocol == old(self).protocol,
            final(self).fileuri == old(self).fileuri,
            final(self).filename == old(self).filename,
            final(self).md5_fileuri == old(self).md5_fileuri,
            final(self).md5_filename == old(self).md5_filename,
    {
        self.state = state;
        self.lock = false;
    }
}

/// The delegation files that are kept up to date: the name of each file and
/// the URL it is fetched from.
pub open spec fn rir_file_list() -> Seq<(&'static str, &'static str)> {
    seq![
        ("delegated-arin-extended-latest", "https://ftp.arin.net/pub/stats/arin/delegated-arin-extended-latest"),
        ("delegated-ripencc-latest", "https://ftp.ripe.net/pub/stats/ripencc/delegated-ripencc-latest"),
        ("delegated-ripencc-extended-latest", "https://ftp.ripe.net/pub/stats/ripencc/delegated-ripencc-extended-latest"),
        ("delegated-apnic-latest", "https://ftp.apnic.net/stats/apnic/delegated-apnic-latest"),
        ("delegated-apnic-extended-latest", "https://ftp.apnic.net/stats/apnic/delegated-apnic-extended-latest"),
        ("delegated-lacnic-latest", "http://ftp.lacnic.net/pub/stats/lacnic/delegated-lacnic-latest"),
        ("delegated-lacnic-extended-latest", "http://ftp.lacnic.net/pub/stats/lacnic/delegated-lacnic-extended-latest"),
        ("delegated-afrinic-latest", "https://ftp.afrinic.net/pub/stats/afrinic/delegated-afrinic-latest"),
        ("delegated-afrinic-extended-latest", "https://ftp.afrinic.net/pub/stats/afrinic/delegated-afrinic-extended-latest"),
        ("delegated-iana-latest", "https://ftp.apnic.net/stats/iana/delegated-iana-latest"),
    ]
}

/// The delegation files that are kept up to date, in the order in which they
/// are fetched and read.
pub fn rir_files() -> (files: Vec<(&'static str, &'static str)>)
    ensures
        files@ == rir_file_list(),
{
    let mut files: Vec<(&'static str, &'static str)> = Vec::new();
    files.push(("delegated-arin-extended-latest", "https://ftp.arin.net/pub/stats/arin/delegated-arin-extended-latest"));
    files.push(("delegated-ripencc-latest", "https://ftp.ripe.net/pub/stats/ripencc/delegated-ripencc-latest"));
    files.push(("delegated-ripencc-extended-latest", "https://ftp.ripe.net/pub/stats/ripencc/delegated-ripencc-extended-latest"));
    files.push(("delegated-apnic-latest", "https://ftp.apnic.net/stats/apnic/delegated-apnic-latest"));
    files.push(("delegated-apnic-extended-latest", "https://ftp.apnic.net/stats/apnic/delegated-apnic-extended-latest"));
    files.push(("delegated-lacnic-latest", "http://ftp.lacnic.net/pub/stats/lacnic/delegated-lacnic-latest"));
    files.push(("delegated-lacnic-extended-latest", "http://ftp.lacnic.net/pub/stats/lacnic/delegated-lacnic-extended-latest"));
    files.push(("delegated-afrinic-latest", "https://ftp.afrinic.net/pub/stats/afrinic/delegated-afrinic-latest"));
    files.push(("delegated-afrinic-extended-latest", "https://ftp.afrinic.net/pub/stats/afrinic/delegated-afrinic-extended-latest"));
    files.push(("delegated-iana-latest", "https://ftp.apnic.net/stats/iana/delegated-iana-latest"));
    assert(files@ =~= rir_file_list());
    files
}

/// The scheme that `hyper::Uri` finds in the text `url`; `None` where it
/// takes the text for no URI, or finds no scheme in it.
pub uninterp spec fn uri_scheme(url: Seq<char>) -> Option<Seq<char>>;

/// The scheme of a URL, by `hyper::Uri`: the text is read by `Uri::from_str`
/// and the scheme is what `Uri::scheme_str` gives for it. `None` where the
/// text is refused or has no scheme.
#[verifier::external_body]
fn scheme_of(url: &str) -> (r: Option<String>)
    ensures
        match r {
            Some(scheme) => uri_scheme(url@) == Some(scheme@),
            None => uri_scheme(url@) is None,
        },
{
    match url.parse::<hyper::Uri>() {
        Ok(uri) => uri.scheme_str().map(|scheme| scheme.to_string()),
        Err(_) => None,
    }
}

/// The protocol by which `url` is fetched: that of its scheme, where it has
/// one that files are fetched with.
pub open spec fn protocol_of(url: Seq<char>) -> Option<Protocol> {
    match uri_scheme(url) {
        Some(scheme) => Protocol::of_scheme(scheme),
        None => None,
    }
}

/// Plans the download of `url` into the file `filename`, as the task at
/// place `index`. `None` exactly when `url` is no URL that files are fetched
/// by: it is no URI, has no scheme, or a scheme other than `http` and `https`.
pub fn plan(index: usize, filename: &str, url: &str) -> (r: Option<Task>)
    ensures
        r is Some <==> protocol_of(url@) is Some,
        r matches Some(task) ==> {
            &&& task.index == index
            &&& task.filename@ == filename@
            &&& task.fileuri@ == url@
            &&& task.md5_filename@ == filename@ + ".md5"@
            &&& task.md5_fileuri@ == url@ + ".md5"@
            &&& Some(task.protocol) == protocol_of(url@)
            &&& task.state == initial_state(filename@)
            &&& !task.lock
        },
{
    match scheme_of(url) {
        Some(scheme) => match Protocol::from_scheme(scheme.as_str()) {
            Some(protocol) => Some(Task::new(index, filename, url, protocol)),
            None => None,
        },
        None => None,
    }
}

/// Whether a checksum that was fetched calls for fetching the file: it is
/// empty, or it differs from the local one.
pub open spec fn needs_update(fetched: Seq<char>, local: Seq<char>) -> bool {
    fetched != local || fetched.len() == 0
}

/// Judges the answer to a request for a checksum file. `body` is the text
/// that came, or `None` if what came is no text; `local` is the text of the
/// local checksum file, empty if there was none.
///
/// Any status but 200, and an answer that is no text, fail the task and
/// delete the local checksum file. A checksum that calls for an update is
/// stored and the file is fetched next. Otherwise the task is done.
pub fn md5_verdict(status_code: u16, body: Option<&str>, local: &str) -> (r: Verdict)
    ensures
        status_code != 200 || body is None ==> r.state is Failure && r.effect == Effect::RemoveMd5,
        status_code == 200 && body is Some && needs_update(body->Some_0@, local@) ==> r.state
            == State::UpdateFile && r.effect == Effect::WriteMd5,
        status_code == 200 && body is Some && !needs_update(body->Some_0@, local@) ==> r.state
            == State::Success && r.effect == Effect::Keep,
{
    if status_code != 200 {
        return Verdict {
            state: State::Failure(String::from_str("the server answered with an error status")),
            effect: Effect::RemoveMd5,
        };
    }
    match body {
        None => Verdict {
            state: State::Failure(String::from_str("the checksum file is no text")),
            effect: Effect::RemoveMd5,
        },
        Some(text) => {
            let fetched = to_chars(text);
            let kept = to_chars(local);
            if !chars_equal(&fetched, &kept) || fetched.len() == 0 {
                Verdict { state: State::UpdateFile, effect: Effect::WriteMd5 }
            } else {
                Verdict { state: State::Success, effect: Effect::Keep }
            }
        },
    }
}

/// Judges the answer to a request for a file: with status 200 the file is
/// stored and the task is done; any other status fails the task and deletes
/// the local checksum file.
pub fn file_verdict(status_code: u16) -> (r: Verdict)
    ensures
        status_code == 200 ==> r.state == State::Success && r.effect == Effect::WriteFile,
        status_code != 200 ==> r.state is Failure && r.effect == Effect::RemoveMd5,
{
    if status_code == 200 {
        Verdict { state: State::Success, effect: Effect::WriteFile }
    } else {
        Verdict {
            state: State::Failure(String::from_str("the server answered with an error status")),
            effect: Effect::RemoveMd5,
        }
    }
}

/// Judges a request that could not be carried out: the task fails with the
/// reason given and the local checksum file is deleted.
pub fn failure_verdict(reason: String) -> (r: Verdict)
    ensures
        r.state == State::Failure(reason),
        r.effect == Effect::RemoveMd5,
{
    Verdict { state: State::Failure(reason), effect: Effect::RemoveMd5 }
}

/// The task at place `i` after the report `event`, if it was meant for it.
pub open spec fn reported(task: Task, i: int, event: Option<(usize, State)>) -> Task {
    match event {
        Some((index, state)) => if index == i {
            Task { state: state, lock: false, ..task }
        } else {
            task
        },
        None => task,
    }
}

/// The task after it was run.
pub open spec fn ran(task: Task) -> Task {
    Task { lock: task.locks(), ..task }
}

/// Whether every task has come to its end.
pub open spec fn all_final(tasks: Seq<Task>) -> bool {
    forall|i: int| 0 <= i < tasks.len() ==> (#[trigger] tasks[i]).state.is_final()
}

/// One round of the synchronisation. First the report `event`, a task's
/// place and its next state, is handed to that task, which unlocks it; a
/// report for a place that holds no task is dropped. Then every task is run.
/// Gives, place by place, what the caller is to do for each task.
pub fn sync(tasks: &mut Vec<Task>, event: Option<(usize, State)>) -> (actions: Vec<Action>)
    ensures
        final(tasks)@.len() == old(tasks)@.len(),
        actions@.len() == old(tasks)@.len(),
        forall|i: int|
            0 <= i < old(tasks)@.len() ==> {
                &&& #[trigger] actions@[i] == reported(old(tasks)@[i], i, event).action()
                &&& final(tasks)@[i] == ran(reported(old(tasks)@[i], i, event))
            },
{
    match event {
        Some((index, state)) => {
            if index < tasks.len() {
                tasks[index].report(state);
            }
        },
        None => {},
    }
    let ghost told = tasks@;
    let mut actions: Vec<Action> = Vec::new();
    let mut i: usize = 0;
    while i < tasks.len()
        invariant
            i <= tasks@.len(),
            tasks@.len() == told.len(),
            actions@.len() == i,
            forall|k: int| 0 <= k < i ==> #[trigger] actions@[k] == told[k].action() && tasks@[k] == ran(told[k]),
            forall|k: int| i <= k < told.len() ==> tasks@[k] == told[k],
        decreases tasks@.len() - i,
    {
        let action = tasks[i].run();
        actions.push(action);
        i += 1;
    }
    actions
}

/// Whether every task has come to its end, so that nothing is left to do.
pub fn finished(tasks: &Vec<Task>) -> (r: bool)
    ensures
        r == all_final(tasks@),
{
    let mut i: usize = 0;
    while i < tasks.len()
        invariant
            i <= tasks@.len(),
            forall|k: int| 0 <= k < i ==> (#[trigger] tasks@[k]).state.is_final(),
        decreases tasks@.len() - i,
    {
        if !tasks[i].is_finished() {
            return false;
        }
        i += 1;
    }
    true
}

} // verus!
