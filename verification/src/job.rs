//! A job: the settings of a program that the supervisor runs.
use crate::strmap::StrMap;
use vstd::prelude::*;

verus! {

/// When a job's processes are restarted after they exit.
#[derive(Debug, PartialEq, Eq, Structural, Clone, Copy)]
pub enum AutorestartOptions {
    Always,
    Never,
    UnexpectedExit,
}

/// The signal that stops a job's processes.
#[derive(Debug, PartialEq, Eq, Structural, Clone, Copy)]
pub enum StopSignals {
    HUP,
    INT,
    QUIT,
    KILL,
    USR1,
    USR2,
    TERM,
}

impl DeepView for AutorestartOptions {
    type V = AutorestartOptions;

    open spec fn deep_view(&self) -> AutorestartOptions {
        *self
    }
}

impl DeepView for StopSignals {
    type V = StopSignals;

    open spec fn deep_view(&self) -> StopSignals {
        *self
    }
}

/// The POSIX number of each stop signal.
pub open spec fn signal_number(s: StopSignals) -> i32 {
    match s {
        StopSignals::HUP => 1,
        StopSignals::INT => 2,
        StopSignals::QUIT => 3,
        StopSignals::KILL => 9,
        StopSignals::USR1 => 10,
        StopSignals::USR2 => 12,
        StopSignals::TERM => 15,
    }
}

impl StopSignals {
    /// The signal's number.
    pub fn number(&self) -> (n: i32)
        ensures
            n == signal_number(*self),
    {
        match self {
            StopSignals::HUP => 1,
            StopSignals::INT => 2,
            StopSignals::QUIT => 3,
            StopSignals::KILL => 9,
            StopSignals::USR1 => 10,
            StopSignals::USR2 => 12,
            StopSignals::TERM => 15,
        }
    }
}

/// The settings of a job, with strings as characters and the environment as a map.
pub struct JobView {
    pub command: Seq<char>,
    pub arguments: Option<Seq<Seq<char>>>,
    pub num_procs: u32,
    pub auto_start: bool,
    pub auto_restart: AutorestartOptions,
    pub exit_codes: Seq<u8>,
    pub start_secs: u32,
    pub start_retries: u32,
    pub stop_signal: StopSignals,
    pub stop_wait_secs: u32,
    pub stderr_file: Option<Seq<char>>,
    pub stdout_file: Option<Seq<char>>,
    pub environment: Option<Map<Seq<char>, Seq<char>>>,
    pub work_dir: Option<Seq<char>>,
    pub umask: Option<u32>,
}

/// The settings of a program that the supervisor runs.
#[derive(Debug, Clone)]
pub struct Job {
    pub command: String,
    pub arguments: Option<Vec<String>>,
    pub num_procs: u32,
    pub auto_start: bool,
    pub auto_restart: AutorestartOptions,
    pub exit_codes: Vec<u8>,
    pub start_secs: u32,
    pub start_retries: u32,
    pub stop_signal: StopSignals,
    pub stop_wait_secs: u32,
    pub stderr_file: Option<String>,
    pub stdout_file: Option<String>,
    pub environment: Option<StrMap<String>>,
    pub work_dir: Option<String>,
    pub umask: Option<u32>,
}

impl DeepView for Job {
    type V = JobView;

    open spec fn deep_view(&self) -> JobView {
        JobView {
            command: self.command@,
            arguments: self.arguments.deep_view(),
            num_procs: self.num_procs,
            auto_start: self.auto_start,
            auto_restart: self.auto_restart,
            exit_codes: self.exit_codes@,
            start_secs: self.start_secs,
            start_retries: self.start_retries,
            stop_signal: self.stop_signal,
            stop_wait_secs: self.stop_wait_secs,
            stderr_file: self.stderr_file.deep_view(),
            stdout_file: self.stdout_file.deep_view(),
            environment: self.environment.deep_view(),
            work_dir: self.work_dir.deep_view(),
            umask: self.umask,
        }
    }
}

/// The settings a job has where its configuration says nothing.
pub open spec fn default_job() -> JobView {
    JobView {
        command: Seq::empty(),
        arguments: None,
        num_procs: 1,
        auto_start: true,
        auto_restart: AutorestartOptions::UnexpectedExit,
        exit_codes: seq![1u8],
        start_secs: 1,
        start_retries: 3,
        stop_signal: StopSignals::TERM,
        stop_wait_secs: 10,
        stderr_file: None,
        stdout_file: None,
        environment: None,
        work_dir: None,
        umask: None,
    }
}

impl Default for Job {
    fn default() -> (j: Job)
        ensures
            j.deep_view() == default_job(),
    {
        let mut exit_codes: Vec<u8> = Vec::new();
        exit_codes.push(1);
        Job {
            command: String::new(),
            arguments: None,
            num_procs: 1,
            auto_start: true,
            auto_restart: AutorestartOptions::UnexpectedExit,
            exit_codes,
            start_secs: 1,
            start_retries: 3,
            stop_signal: StopSignals::TERM,
            stop_wait_secs: 10,
            stderr_file: None,
            stdout_file: None,
            environment: None,
            work_dir: None,
            umask: None,
        }
    }
}

fn same_opt_string(a: &Option<String>, b: &Option<String>) -> (r: bool)
    ensures
        r == (a.deep_view() == b.deep_view()),
{
    match (a, b) {
        (Some(x), Some(y)) => *x == *y,
        (None, None) => true,
        _ => false,
    }
}

fn same_strings(a: &Vec<String>, b: &Vec<String>) -> (r: bool)
    ensures
        r == (a.deep_view() == b.deep_view()),
{
    if a.len() != b.len() {
        assert(a.deep_view().len() != b.deep_view().len());
        return false;
    }
    let mut i: usize = 0;
    while i < a.len()
        invariant
            i <= a@.len() == b@.len(),
            forall|j: int| 0 <= j < i ==> a@[j]@ == b@[j]@,
        decreases a.len() - i,
    {
        if !(a[i] == b[i]) {
            assert(a.deep_view()[i as int] != b.deep_view()[i as int]);
            return false;
        }
        i = i + 1;
    }
    assert(a.deep_view() =~= b.deep_view());
    true
}

fn same_bytes(a: &Vec<u8>, b: &Vec<u8>) -> (r: bool)
    ensures
        r == (a@ == b@),
{
    if a.len() != b.len() {
        return false;
    }
    let mut i: usize = 0;
    while i < a.len()
        invariant
            i <= a@.len() == b@.len(),
            forall|j: int| 0 <= j < i ==> a@[j] == b@[j],
        decreases a.len() - i,
    {
        if a[i] != b[i] {
            return false;
        }
        i = i + 1;
    }
    assert(a@ =~= b@);
    true
}

impl Job {
    /// Whether two jobs have the same settings; environments are compared as maps.
    pub fn same_settings(&self, other: &Job) -> (r: bool)
        ensures
            r == (self.deep_view() == other.deep_view()),
    {
        let args = match (&self.arguments, &other.arguments) {
            (Some(x), Some(y)) => same_strings(x, y),
            (None, None) => true,
            _ => false,
        };
        let env = match (&self.environment, &other.environment) {
            (Some(x), Some(y)) => x.same_map(y),
            (None, None) => true,
            _ => false,
        };
        let r = self.command == other.command && args && self.num_procs == other.num_procs
            && self.auto_start == other.auto_start && self.auto_restart == other.auto_restart
            && same_bytes(&self.exit_codes, &other.exit_codes) && self.start_secs
            == other.start_secs && self.start_retries == other.start_retries && self.stop_signal
            == other.stop_signal && self.stop_wait_secs == other.stop_wait_secs
            && same_opt_string(&self.stderr_file, &other.stderr_file) && same_opt_string(
            &self.stdout_file,
            &other.stdout_file,
        ) && env && same_opt_string(&self.work_dir, &other.work_dir) && self.umask
            == other.umask;
        r
    }

    /// The indices of the processes that a start or stop with `target`
    /// concerns, as a range `start..end`: all of them without a target, the
    /// target alone where it is below `num_procs`, and `None` where it is not.
    pub fn process_range(&self, target: Option<u32>) -> (r: Option<(u32, u32)>)
        ensures
            match target {
                None => r == Some((0u32, self.num_procs)),
                Some(nb) => if nb < self.num_procs {
                    r == Some((nb, (nb + 1) as u32))
                } else {
                    r is None
                },
            },
    {
        match target {
            None => Some((0, self.num_procs)),
            Some(nb) => {
                if nb < self.num_procs {
                    Some((nb, nb + 1))
                } else {
                    None
                }
            },
        }
    }
}

impl PartialEq for Job {
    fn eq(&self, other: &Job) -> (r: bool) {
        self.same_settings(other)
    }
}

impl vstd::std_specs::cmp::PartialEqSpecImpl for Job {
    open spec fn obeys_eq_spec() -> bool {
        true
    }

    open spec fn eq_spec(&self, other: &Job) -> bool {
        self.deep_view() == other.deep_view()
    }
}

} // verus!
