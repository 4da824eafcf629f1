//! The configuration: the jobs by name, built from the sections of a
//! configuration file, and what a reload of it asks of the supervisor.
use crate::error::{error_text, res_view, Error, ErrorV, Result};
use crate::job::{Job, JobView};
use crate::parse::{
    _parse_arguments, _parse_command, err_of, parse_job, parse_job_panics, spec_arguments,
    spec_command, spec_parse_job, spec_parse_job_panics, RawConfig, RawView,
};
use crate::strmap::{distinct_keys, lemma_to_map_finite, lemma_to_map_value, to_map, StrMap};
use configparser::ini::Ini;
use vstd::prelude::*;

verus! {

/// The sections of a configuration file by name, in the order in which
/// they are read.
pub type ConfigParserContent = StrMap<RawConfig>;

/// The job that a section describes as the configuration reads it: the
/// command and its arguments first, then the other fields in the order of
/// [`spec_parse_job`].
pub open spec fn spec_config_job(raw: RawView) -> core::result::Result<JobView, ErrorV> {
    if spec_command(raw) is Err {
        Err(err_of(spec_command(raw)))
    } else if spec_arguments(raw) is Err {
        Err(err_of(spec_arguments(raw)))
    } else {
        spec_parse_job(raw)
    }
}

/// The sections as names and views, in order.
pub open spec fn sections_view(s: Seq<(String, RawConfig)>) -> Seq<(Seq<char>, RawView)> {
    Seq::new(s.len(), |i: int| (s[i].0@, s[i].1@))
}

/// The sections of a configuration, as names and views, in order.
pub open spec fn content_sections(cfg: ConfigParserContent) -> Seq<(Seq<char>, RawView)> {
    sections_view(cfg.entry_seq())
}

/// The jobs after reading the sections in order into `m`, and the error
/// that stopped the reading, if any: each section that parses is inserted
/// under its name, and the first that does not stops the reading with
/// `CantParseEntry`, the sections before it staying inserted.
pub open spec fn load_sections(m: Map<Seq<char>, JobView>, secs: Seq<(Seq<char>, RawView)>) -> (
    Map<Seq<char>, JobView>,
    Option<ErrorV>,
)
    decreases secs.len(),
{
    if secs.len() == 0 {
        (m, None)
    } else {
        let (m1, e1) = load_sections(m, secs.drop_last());
        if e1 is Some {
            (m1, e1)
        } else {
            match spec_config_job(secs.last().1) {
                Ok(j) => (m1.insert(secs.last().0, j), None),
                Err(e) => (
                    m1,
                    Some(ErrorV::CantParseEntry { entry_name: secs.last().0, e: error_text(e) }),
                ),
            }
        }
    }
}

/// The jobs and the result after reading a whole configuration into `m`:
/// the `default` section (what stands before any section header) is then
/// dropped, and a configuration without jobs is refused.
pub open spec fn spec_parse_content(m: Map<Seq<char>, JobView>, secs: Seq<(Seq<char>, RawView)>) -> (
    Map<Seq<char>, JobView>,
    core::result::Result<(), ErrorV>,
) {
    let (m1, e) = load_sections(m, secs);
    match e {
        Some(x) => (m1, Err(x)),
        None => {
            let m2 = m1.remove("default"@);
            if m2 == Map::<Seq<char>, JobView>::empty() {
                (m2, Err(ErrorV::NoJobEntry))
            } else {
                (m2, Ok(()))
            }
        },
    }
}

/// Every section parses.
pub open spec fn all_parse(secs: Seq<(Seq<char>, RawView)>) -> bool {
    forall|j: int| 0 <= j < secs.len() ==> (#[trigger] spec_config_job(secs[j].1)) is Ok
}

/// Reading the sections reaches, before any error, one whose environment
/// holds a lone double quote.
pub open spec fn content_panics(secs: Seq<(Seq<char>, RawView)>) -> bool
    decreases secs.len(),
{
    if secs.len() == 0 {
        false
    } else {
        content_panics(secs.drop_last()) || (all_parse(secs.drop_last()) && spec_parse_job_panics(
            secs.last().1,
        ))
    }
}

proof fn lemma_load_step(m: Map<Seq<char>, JobView>, secs: Seq<(Seq<char>, RawView)>, i: int)
    requires
        0 <= i < secs.len(),
        load_sections(m, secs.take(i)).1 is None,
    ensures
        load_sections(m, secs.take(i + 1)) == (match spec_config_job(secs[i].1) {
            Ok(j) => (load_sections(m, secs.take(i)).0.insert(secs[i].0, j), None),
            Err(e) => (
                load_sections(m, secs.take(i)).0,
                Some(ErrorV::CantParseEntry { entry_name: secs[i].0, e: error_text(e) }),
            ),
        }),
{
    assert(secs.take(i + 1).drop_last() == secs.take(i));
    assert(secs.take(i + 1).last() == secs[i]);
}

proof fn lemma_panics_step(secs: Seq<(Seq<char>, RawView)>, i: int)
    requires
        0 <= i < secs.len(),
    ensures
        content_panics(secs.take(i + 1)) == (content_panics(secs.take(i)) || (all_parse(
            secs.take(i),
        ) && spec_parse_job_panics(secs[i].1))),
        all_parse(secs.take(i + 1)) == (all_parse(secs.take(i)) && spec_config_job(secs[i].1) is Ok),
{
    assert(secs.take(i + 1).drop_last() == secs.take(i));
    assert(secs.take(i + 1).last() == secs[i]);
    if all_parse(secs.take(i)) && spec_config_job(secs[i].1) is Ok {
        assert forall|j: int| 0 <= j < secs.take(i + 1).len() implies (#[trigger] spec_config_job(
            secs.take(i + 1)[j].1,
        )) is Ok by {
            if j < i {
                assert(secs.take(i + 1)[j] == secs.take(i)[j]);
            }
        }
    }
    if all_parse(secs.take(i + 1)) {
        assert(secs.take(i + 1)[i] == secs[i]);
        assert forall|j: int| 0 <= j < secs.take(i).len() implies (#[trigger] spec_config_job(
            secs.take(i)[j].1,
        )) is Ok by {
            assert(secs.take(i + 1)[j] == secs.take(i)[j]);
        }
    }
}

proof fn lemma_load_sections_error_stays(
    m: Map<Seq<char>, JobView>,
    secs: Seq<(Seq<char>, RawView)>,
    k: int,
)
    requires
        0 <= k <= secs.len(),
        load_sections(m, secs.take(k)).1 is Some,
    ensures
        load_sections(m, secs) == load_sections(m, secs.take(k)),
    decreases secs.len(),
{
    if k == secs.len() {
        assert(secs.take(k) == secs);
    } else {
        assert(secs.drop_last().take(k) == secs.take(k));
        lemma_load_sections_error_stays(m, secs.drop_last(), k);
    }
}

pub proof fn lemma_load_sections_ok(m: Map<Seq<char>, JobView>, secs: Seq<(Seq<char>, RawView)>)
    ensures
        load_sections(m, secs).1 is None <==> all_parse(secs),
    decreases secs.len(),
{
    if secs.len() > 0 {
        lemma_load_sections_ok(m, secs.drop_last());
        if all_parse(secs) {
            assert forall|j: int| 0 <= j < secs.drop_last().len() implies (#[trigger] spec_config_job(
                secs.drop_last()[j].1,
            )) is Ok by {
                assert(secs.drop_last()[j] == secs[j]);
            }
            assert(spec_config_job(secs[secs.len() - 1].1) is Ok);
        }
        if load_sections(m, secs).1 is None {
            assert forall|j: int| 0 <= j < secs.len() implies (#[trigger] spec_config_job(
                secs[j].1,
            )) is Ok by {
                if j < secs.len() - 1 {
                    assert(secs.drop_last()[j] == secs[j]);
                }
            }
        }
    }
}

proof fn lemma_content_panics_prefix(secs: Seq<(Seq<char>, RawView)>, k: int)
    requires
        0 <= k <= secs.len(),
        content_panics(secs.take(k)),
    ensures
        content_panics(secs),
    decreases secs.len(),
{
    if k == secs.len() {
        assert(secs.take(k) == secs);
    } else {
        assert(secs.drop_last().take(k) == secs.take(k));
        lemma_content_panics_prefix(secs.drop_last(), k);
    }
}

proof fn lemma_content_no_panic_after_err(secs: Seq<(Seq<char>, RawView)>, k: int)
    requires
        0 <= k <= secs.len(),
        !content_panics(secs.take(k)),
        !all_parse(secs.take(k)),
    ensures
        !content_panics(secs),
    decreases secs.len(),
{
    if k == secs.len() {
        assert(secs.take(k) == secs);
    } else {
        assert(secs.drop_last().take(k) == secs.take(k));
        lemma_content_no_panic_after_err(secs.drop_last(), k);
        let j = choose|j: int|
            0 <= j < secs.take(k).len() && !((#[trigger] spec_config_job(secs.take(k)[j].1)) is Ok);
        assert(secs.drop_last()[j] == secs.take(k)[j]);
    }
}

/// What a reload asks the supervisor to do, job by job.
#[derive(Debug, PartialEq, Clone)]
pub enum ReloadStep {
    /// Start the processes of the job now configured under this name.
    Start(String),
    /// Start processes with the settings that the job had before the reload.
    StartPrevious(String),
    /// Stop the processes of a job that the new configuration no longer has.
    StopPrevious(String),
}

/// A [`ReloadStep`] with its name as characters.
pub enum ReloadStepView {
    Start(Seq<char>),
    StartPrevious(Seq<char>),
    StopPrevious(Seq<char>),
}

impl DeepView for ReloadStep {
    type V = ReloadStepView;

    open spec fn deep_view(&self) -> ReloadStepView {
        match self {
            ReloadStep::Start(s) => ReloadStepView::Start(s@),
            ReloadStep::StartPrevious(s) => ReloadStepView::StartPrevious(s@),
            ReloadStep::StopPrevious(s) => ReloadStepView::StopPrevious(s@),
        }
    }
}

/// The jobs as names and views, in order.
pub open spec fn jobs_view(s: Seq<(String, Job)>) -> Seq<(Seq<char>, JobView)> {
    Seq::new(s.len(), |i: int| (s[i].0@, s[i].1.deep_view()))
}

/// A start for each job, in order, that starts by itself.
pub open spec fn autostart_steps(jobs: Seq<(Seq<char>, JobView)>) -> Seq<ReloadStepView>
    decreases jobs.len(),
{
    if jobs.len() == 0 {
        seq![]
    } else {
        autostart_steps(jobs.drop_last()) + if jobs.last().1.auto_start {
            seq![ReloadStepView::Start(jobs.last().0)]
        } else {
            seq![]
        }
    }
}

/// For each new job in order: a job that did not exist starts if it starts
/// by itself, and a job whose settings changed starts with its former settings.
pub open spec fn change_steps(
    jobs: Seq<(Seq<char>, JobView)>,
    previous: Map<Seq<char>, JobView>,
) -> Seq<ReloadStepView>
    decreases jobs.len(),
{
    if jobs.len() == 0 {
        seq![]
    } else {
        let (k, j) = jobs.last();
        change_steps(jobs.drop_last(), previous) + if previous.contains_key(k) {
            if previous[k] != j {
                seq![ReloadStepView::StartPrevious(k)]
            } else {
                seq![]
            }
        } else if j.auto_start {
            seq![ReloadStepView::Start(k)]
        } else {
            seq![]
        }
    }
}

/// A stop for each former job, in order, that the new jobs do not have.
pub open spec fn removal_steps(
    previous: Seq<(Seq<char>, JobView)>,
    now: Map<Seq<char>, JobView>,
) -> Seq<ReloadStepView>
    decreases previous.len(),
{
    if previous.len() == 0 {
        seq![]
    } else {
        removal_steps(previous.drop_last(), now) + if now.contains_key(previous.last().0) {
            seq![]
        } else {
            seq![ReloadStepView::StopPrevious(previous.last().0)]
        }
    }
}

/// The jobs of the supervisor by name.
#[derive(Debug, Clone)]
pub struct Config {
    pub map: StrMap<Job>,
}

impl View for Config {
    type V = Map<Seq<char>, JobView>;

    open spec fn view(&self) -> Map<Seq<char>, JobView> {
        self.map@
    }
}

impl Config {
    /// The job that a section describes, the command and its arguments
    /// being read before the other fields.
    fn _parse_job(raw: &RawConfig) -> (r: Result<Job>)
        requires
            !spec_parse_job_panics(raw@),
        ensures
            res_view(r) == spec_config_job(raw@),
    {
        match _parse_command(raw) {
            Err(e) => return Err(e),
            Ok(_) => {},
        }
        match _parse_arguments(raw) {
            Err(e) => return Err(e),
            Ok(_) => {},
        }
        parse_job(raw)
    }

    /// A configuration without jobs.
    pub fn new() -> (c: Self)
        ensures
            c@ == Map::<Seq<char>, JobView>::empty(),
    {
        Config { map: StrMap::new() }
    }

    /// Whether a job has this name.
    pub fn contains_key(&mut self, key: &String) -> (r: bool)
        ensures
            *final(self) == *old(self),
            r == old(self)@.contains_key(key@),
    {
        self.map.contains_key(key.as_str())
    }

    /// The job of this name, if any.
    pub fn get(&self, key: &String) -> (r: Option<&Job>)
        ensures
            match r {
                Some(j) => self@.contains_key(key@) && j.deep_view() == self@[key@],
                None => !self@.contains_key(key@),
            },
    {
        self.map.get(key.as_str())
    }

    /// The job of this name, to change in place.
    pub fn get_mut(&mut self, key: &String) -> (r: Option<&mut Job>)
        ensures
            match r {
                Some(j) => {
                    &&& old(self)@.contains_key(key@)
                    &&& j.deep_view() == old(self)@[key@]
                    &&& final(self)@ == old(self)@.insert(key@, final(j).deep_view())
                },
                None => {
                    &&& !old(self)@.contains_key(key@)
                    &&& final(self)@ == old(self)@
                },
            },
    {
        self.map.get_mut(key.as_str())
    }

    /// Reads the sections in order into the jobs, each under its name (a
    /// section's command and arguments being read before its other fields),
    /// then drops the `default` section. The first section that does not parse
    /// stops the reading with `CantParseEntry`, which carries the text of its
    /// error, and leaves the jobs read before it; a configuration that leaves
    /// no job is refused with `NoJobEntry`.
    pub fn parse_content_of_parserconfig(&mut self, cfg: ConfigParserContent) -> (r: Result<()>)
        requires
            !content_panics(content_sections(cfg)),
        ensures
            final(self)@ == spec_parse_content(old(self)@, content_sections(cfg)).0,
            res_view(r) == spec_parse_content(old(self)@, content_sections(cfg)).1,
    {
        let names = cfg.keys();
        let raws = cfg.values();
        let ghost secs = content_sections(cfg);
        assert forall|j: int| 0 <= j < secs.len() implies #[trigger] secs[j] == (
            names@[j]@,
            raws@[j]@,
        ) by {
            assert(names@[j] == cfg.entry_seq()[j].0);
            assert(raws@[j] == cfg.entry_seq()[j].1);
        }
        let mut i: usize = 0;
        assert(secs.take(0) == Seq::<(Seq<char>, RawView)>::empty());
        while i < names.len()
            invariant
                i <= names@.len() == raws@.len() == secs.len(),
                forall|j: int| 0 <= j < secs.len() ==> #[trigger] secs[j] == (
                    names@[j]@,
                    raws@[j]@,
                ),
                secs == content_sections(cfg),
                !content_panics(secs),
                load_sections(old(self)@, secs.take(i as int)) == (
                    self@,
                    None::<ErrorV>,
                ),
                all_parse(secs.take(i as int)),
            decreases names.len() - i,
        {
            let entry_name = names[i].clone();
            let raw = &raws[i];
            assert(secs[i as int] == (entry_name@, raw@));
            proof {
                lemma_panics_step(secs, i as int);
                lemma_load_step(old(self)@, secs, i as int);
                if spec_parse_job_panics(raw@) {
                    lemma_content_panics_prefix(secs, i + 1);
                }
            }
            let job = match Self::_parse_job(raw) {
                Err(e) => {
                    proof {
                        assert(load_sections(old(self)@, secs.take(i + 1)).1 is Some);
                        lemma_load_sections_error_stays(old(self)@, secs, i + 1);
                        assert(load_sections(old(self)@, secs).0 == self@);
                    }
                    let text = e.to_string();
                    let err = Error::CantParseEntry { entry_name, e: text };
                    assert(load_sections(old(self)@, secs).1 == Some(err@));
                    return Err(err);
                },
                Ok(content) => content,
            };
            self.map.insert(entry_name, job);
            i = i + 1;
        }
        assert(secs.take(names@.len() as int) == secs);
        self.map.remove("default");
        if self.map.is_empty() {
            return Err(Error::NoJobEntry);
        }
        Ok(())
    }

    /// Whether reading `cfg` would reach, before any error, a section whose
    /// environment holds a lone double quote (which cannot be unquoted):
    /// callers check this before reading a configuration.
    pub fn parse_would_panic(cfg: &ConfigParserContent) -> (b: bool)
        ensures
            b == content_panics(content_sections(*cfg)),
    {
        let raws = cfg.values();
        let ghost secs = content_sections(*cfg);
        assert forall|j: int| 0 <= j < secs.len() implies #[trigger] secs[j].1 == raws@[j]@ by {
            assert(raws@[j] == cfg.entry_seq()[j].1);
        }
        let mut i: usize = 0;
        assert(secs.take(0) == Seq::<(Seq<char>, RawView)>::empty());
        while i < raws.len()
            invariant
                i <= raws@.len() == secs.len(),
                forall|j: int| 0 <= j < secs.len() ==> #[trigger] secs[j].1 == raws@[j]@,
                secs == content_sections(*cfg),
                !content_panics(secs.take(i as int)),
                all_parse(secs.take(i as int)),
            decreases raws.len() - i,
        {
            let raw = &raws[i];
            assert(secs[i as int].1 == raw@);
            proof {
                lemma_panics_step(secs, i as int);
            }
            if parse_job_panics(raw) {
                proof {
                    lemma_content_panics_prefix(secs, i + 1);
                }
                return true;
            }
            if Self::_parse_job(raw).is_err() {
                proof {
                    lemma_content_no_panic_after_err(secs, i + 1);
                }
                return false;
            }
            i = i + 1;
        }
        assert(secs.take(raws@.len() as int) == secs);
        false
    }

    /// The names of the jobs that start by themselves, in order.
    pub fn autostart_jobs(&self) -> (r: Vec<ReloadStep>)
        ensures
            r.deep_view() == autostart_steps(jobs_view(self.map.entry_seq())),
    {
        let names = self.map.keys();
        let jobs_in_order = self.map.values();
        let ghost jobs = jobs_view(self.map.entry_seq());
        proof {
            lemma_jobs_in_order(&self.map, names, jobs_in_order);
        }
        let mut r: Vec<ReloadStep> = Vec::new();
        let mut i: usize = 0;
        assert(jobs.take(0) == Seq::<(Seq<char>, JobView)>::empty());
        while i < names.len()
            invariant
                i <= names@.len() == jobs_in_order@.len() == jobs.len(),
                forall|j: int| 0 <= j < jobs.len() ==> #[trigger] jobs[j] == (
                    names@[j]@,
                    jobs_in_order@[j].deep_view(),
                ),
                r.deep_view() == autostart_steps(jobs.take(i as int)),
            decreases names.len() - i,
        {
            assert(jobs.take(i + 1).drop_last() == jobs.take(i as int));
            assert(jobs.take(i + 1).last() == jobs[i as int]);
            let ghost before = r.deep_view();
            if jobs_in_order[i].auto_start {
                r.push(ReloadStep::Start(names[i].clone()));
                assert(r.deep_view() =~= before + seq![ReloadStepView::Start(jobs[i as int].0)]);
            } else {
                assert(before + Seq::<ReloadStepView>::empty() =~= before);
            }
            i = i + 1;
        }
        assert(jobs.take(names@.len() as int) == jobs);
        r
    }
}

/// The jobs in order, by name and settings, as the map's keys and values give them.
proof fn lemma_jobs_in_order(map: &StrMap<Job>, names: &Vec<String>, jobs: &Vec<Job>)
    requires
        names@.len() == map.entry_seq().len(),
        jobs@.len() == map.entry_seq().len(),
        forall|i: int| 0 <= i < names@.len() ==> #[trigger] names@[i] == map.entry_seq()[i].0,
        forall|i: int| 0 <= i < jobs@.len() ==> #[trigger] jobs@[i] == map.entry_seq()[i].1,
    ensures
        forall|j: int| 0 <= j < jobs_view(map.entry_seq()).len() ==> #[trigger] jobs_view(
            map.entry_seq(),
        )[j] == (names@[j]@, jobs@[j].deep_view()),
{
    assert forall|j: int| 0 <= j < jobs_view(map.entry_seq()).len() implies #[trigger] jobs_view(
        map.entry_seq(),
    )[j] == (names@[j]@, jobs@[j].deep_view()) by {
        assert(names@[j] == map.entry_seq()[j].0);
        assert(jobs@[j] == map.entry_seq()[j].1);
    }
}

impl Config {
    /// Replaces the jobs with those that `cfg` describes, where it parses;
    /// otherwise the jobs stay as they were and the parse error is returned.
    /// On success, the steps are, in order: a start for each new job that
    /// starts by itself; then, for each new job, a start of its former
    /// settings where they changed, or a start where the job is new and
    /// starts by itself; then a stop for each former job that is gone.
    fn apply_reload(&mut self, cfg: ConfigParserContent) -> (r: Result<Vec<ReloadStep>>)
        requires
            !content_panics(content_sections(cfg)),
        ensures
            ({
                let (m, res) = spec_parse_content(Map::empty(), content_sections(cfg));
                match res {
                    Err(e) => {
                        &&& final(self)@ == old(self)@
                        &&& res_view(r) == Err::<Seq<ReloadStepView>, ErrorV>(e)
                    },
                    Ok(_) => {
                        &&& final(self)@ == m
                        &&& res_view(r) == Ok::<Seq<ReloadStepView>, ErrorV>(
                            reload_steps(*old(self), *final(self)),
                        )
                    },
                }
            }),
    {
        let mut fresh = Config::new();
        match fresh.parse_content_of_parserconfig(cfg) {
            Err(e) => return Err(e),
            Ok(()) => {},
        }
        let mut steps = fresh.autostart_jobs();
        let ghost first = steps.deep_view();
        // Jobs that are new or changed.
        let new_names = fresh.map.keys();
        let new_jobs = fresh.map.values();
        let ghost jobs = jobs_view(fresh.map.entry_seq());
        proof {
            lemma_jobs_in_order(&fresh.map, new_names, new_jobs);
        }
        let mut i: usize = 0;
        assert(jobs.take(0) == Seq::<(Seq<char>, JobView)>::empty());
        assert(first + Seq::<ReloadStepView>::empty() == first);
        while i < new_names.len()
            invariant
                i <= new_names@.len() == new_jobs@.len() == jobs.len(),
                forall|j: int| 0 <= j < jobs.len() ==> #[trigger] jobs[j] == (
                    new_names@[j]@,
                    new_jobs@[j].deep_view(),
                ),
                steps.deep_view() == first + change_steps(jobs.take(i as int), self@),
            decreases new_names.len() - i,
        {
            assert(jobs.take(i + 1).drop_last() == jobs.take(i as int));
            assert(jobs.take(i + 1).last() == jobs[i as int]);
            let name = &new_names[i];
            let job = &new_jobs[i];
            let ghost before = steps.deep_view();
            match self.map.get(name.as_str()) {
                Some(old_job) => {
                    if !job.same_settings(old_job) {
                        steps.push(ReloadStep::StartPrevious(name.clone()));
                        assert(steps.deep_view() =~= before + seq![
                            ReloadStepView::StartPrevious(name@),
                        ]);
                    } else {
                        assert(before + Seq::<ReloadStepView>::empty() =~= before);
                    }
                },
                None => {
                    if job.auto_start {
                        steps.push(ReloadStep::Start(name.clone()));
                        assert(steps.deep_view() =~= before + seq![ReloadStepView::Start(name@)]);
                    } else {
                        assert(before + Seq::<ReloadStepView>::empty() =~= before);
                    }
                },
            }
            i = i + 1;
        }
        assert(jobs.take(new_names@.len() as int) == jobs);
        let ghost second = steps.deep_view();
        // Jobs that are gone.
        let old_names = self.map.keys();
        let old_jobs = self.map.values();
        let ghost previous = jobs_view(self.map.entry_seq());
        proof {
            lemma_jobs_in_order(&self.map, old_names, old_jobs);
        }
        let mut k: usize = 0;
        assert(previous.take(0) == Seq::<(Seq<char>, JobView)>::empty());
        assert(second + Seq::<ReloadStepView>::empty() == second);
        while k < old_names.len()
            invariant
                k <= old_names@.len() == previous.len(),
                forall|j: int| 0 <= j < previous.len() ==> #[trigger] previous[j].0
                    == old_names@[j]@,
                steps.deep_view() == second + removal_steps(previous.take(k as int), fresh@),
            decreases old_names.len() - k,
        {
            assert(previous.take(k + 1).drop_last() == previous.take(k as int));
            assert(previous.take(k + 1).last() == previous[k as int]);
            let name = &old_names[k];
            let ghost before = steps.deep_view();
            if !fresh.map.contains_key(name.as_str()) {
                steps.push(ReloadStep::StopPrevious(name.clone()));
                assert(steps.deep_view() =~= before + seq![ReloadStepView::StopPrevious(name@)]);
            } else {
                assert(before + Seq::<ReloadStepView>::empty() =~= before);
            }
            k = k + 1;
        }
        assert(previous.take(old_names@.len() as int) == previous);
        self.map = fresh.map;
        Ok(steps)
    }
}

/// The steps of a reload from the jobs `before` to the jobs `after`: a start
/// for each new job that starts by itself; then, for each new job, a start of
/// its former settings where they changed, or a start where the job is new and
/// starts by itself; then a stop for each former job that is gone.
pub open spec fn reload_steps(before: Config, after: Config) -> Seq<ReloadStepView> {
    autostart_steps(jobs_view(after.map.entry_seq())) + change_steps(
        jobs_view(after.map.entry_seq()),
        before@,
    ) + removal_steps(jobs_view(before.map.entry_seq()), after@)
}

// ---------------------------------------------------------------------------
// Reading the configuration file's text
// ---------------------------------------------------------------------------

/// What configparser's `Ini::read` gives for a text, read with the default
/// settings of `Ini::new()`: each section with its keys and their values, or
/// the message of its refusal.
pub uninterp spec fn ini_read(text: Seq<char>) -> core::result::Result<
    Map<Seq<char>, Map<Seq<char>, Option<Seq<char>>>>,
    Seq<char>,
>;

/// Reads `text` with configparser (`Ini::new().read(text)`). The sections and
/// their keys and values are the result named by [`ini_read`]; the order in
/// which they come is that of the hash map that configparser hands back, and
/// is left unsaid.
#[verifier::external_body]
fn read_ini(text: String) -> (r: core::result::Result<ConfigParserContent, String>)
    ensures
        match r {
            Ok(c) => ini_read(text@) == Ok::<Map<Seq<char>, RawView>, Seq<char>>(c@),
            Err(why) => ini_read(text@) == Err::<Map<Seq<char>, RawView>, Seq<char>>(why@),
        },
{
    let sections = Ini::new().read(text)?;
    let mut content: ConfigParserContent = StrMap::new();
    for (name, fields) in sections {
        let mut raw: RawConfig = StrMap::new();
        for (key, value) in fields {
            raw.insert(key, value);
        }
        content.insert(name, raw);
    }
    Ok(content)
}

/// The message of a file that cannot be loaded, as configparser words it.
pub open spec fn load_failure(path: Seq<char>, why: Seq<char>) -> Seq<char> {
    "couldn't read "@ + path + ": "@ + why
}

fn load_failure_text(path: &str, why: &str) -> (r: String)
    ensures
        r@ == load_failure(path@, why@),
{
    let mut r = String::from_str("couldn't read ");
    r.append(path);
    r.append(": ");
    r.append(why);
    r
}

/// The file's text, or the description of why it could not be read, as characters.
pub open spec fn text_view(loaded: core::result::Result<String, String>) -> core::result::Result<
    Seq<char>,
    Seq<char>,
> {
    match loaded {
        Ok(t) => Ok(t@),
        Err(why) => Err(why@),
    }
}

/// The sections that a configuration file gives, or `CantLoadFile` where it
/// cannot be read or is not valid INI.
pub open spec fn spec_file_sections(
    path: Seq<char>,
    loaded: core::result::Result<Seq<char>, Seq<char>>,
) -> core::result::Result<Map<Seq<char>, RawView>, ErrorV> {
    match loaded {
        Err(why) => Err(ErrorV::CantLoadFile(load_failure(path, why))),
        Ok(text) => match ini_read(text) {
            Err(why) => Err(ErrorV::CantLoadFile(load_failure(path, why))),
            Ok(m) => Ok(m),
        },
    }
}

/// `secs` lists the sections of `m`, each once, in some order.
pub open spec fn lists_sections(secs: Seq<(Seq<char>, RawView)>, m: Map<Seq<char>, RawView>) -> bool {
    &&& m.dom().finite()
    &&& secs.len() == m.len()
    &&& forall|i: int|
        0 <= i < secs.len() ==> m.contains_key(#[trigger] secs[i].0) && m[secs[i].0] == secs[i].1
    &&& forall|i: int, j: int| 0 <= i < j < secs.len() ==> secs[i].0 != secs[j].0
}

proof fn lemma_lists_sections(s: Seq<(String, RawConfig)>)
    requires
        distinct_keys(s),
    ensures
        lists_sections(sections_view(s), to_map(s)),
{
    lemma_to_map_finite(s);
    let v = sections_view(s);
    assert forall|i: int| 0 <= i < v.len() implies to_map(s).contains_key(#[trigger] v[i].0)
        && to_map(s)[v[i].0] == v[i].1 by {
        lemma_to_map_value(s, i);
    }
}

/// The sections of the file, with the order in which they came.
fn file_content(path: &str, loaded: core::result::Result<String, String>) -> (r: Result<
    ConfigParserContent,
>)
    ensures
        res_view(r) == spec_file_sections(path@, text_view(loaded)),
        r matches Ok(c) ==> lists_sections(content_sections(c), c@),
{
    match loaded {
        Err(why) => Err(Error::CantLoadFile(load_failure_text(path, why.as_str()))),
        Ok(text) => match read_ini(text) {
            Err(why) => Err(Error::CantLoadFile(load_failure_text(path, why.as_str()))),
            Ok(c) => {
                let _ = c.keys();
                proof {
                    lemma_lists_sections(c.entry_seq());
                }
                Ok(c)
            },
        },
    }
}

/// What loading the sections `secs`, in that order, does to the jobs: where
/// the reading reaches a lone double quote in an environment, nothing (and
/// `None`); otherwise the jobs and the result of reading the sections.
pub open spec fn load_effect(
    before: Map<Seq<char>, JobView>,
    after: Map<Seq<char>, JobView>,
    secs: Seq<(Seq<char>, RawView)>,
    r: Option<Result<()>>,
) -> bool {
    if content_panics(secs) {
        r is None && after == before
    } else {
        &&& r matches Some(x) && res_view(x) == spec_parse_content(before, secs).1
        &&& after == spec_parse_content(before, secs).0
    }
}

/// What reading a configuration at start-up with the sections `secs`, in
/// that order, does: as [`load_effect`], and where the reading succeeds, a
/// start for each job, in order, that starts by itself.
pub open spec fn startup_effect(
    before: Map<Seq<char>, JobView>,
    after: Config,
    secs: Seq<(Seq<char>, RawView)>,
    r: Option<Result<Vec<ReloadStep>>>,
) -> bool {
    if content_panics(secs) {
        r is None && after@ == before
    } else {
        let (m, res) = spec_parse_content(before, secs);
        &&& after@ == m
        &&& match res {
            Err(e) => r matches Some(Err(x)) && x@ == e,
            Ok(_) => r matches Some(Ok(steps)) && steps.deep_view() == autostart_steps(
                jobs_view(after.map.entry_seq()),
            ),
        }
    }
}

/// What a reload with the sections `secs`, in that order, does: where the
/// reading reaches a lone double quote, nothing (and `None`); where the
/// sections do not parse, the jobs stay and the error is kept; otherwise the
/// jobs become those of the sections and the steps are returned.
pub open spec fn reload_effect(
    before: Config,
    after: Config,
    secs: Seq<(Seq<char>, RawView)>,
    r: Option<ReloadOutcome>,
) -> bool {
    if content_panics(secs) {
        r is None && after@ == before@
    } else {
        let (m, res) = spec_parse_content(Map::empty(), secs);
        match res {
            Err(e) => {
                &&& after@ == before@
                &&& r matches Some(ReloadOutcome::Kept(x)) && x@ == e
            },
            Ok(_) => {
                &&& after@ == m
                &&& r matches Some(ReloadOutcome::Reloaded(steps)) && steps.deep_view()
                    == reload_steps(before, after)
            },
        }
    }
}

/// How a reload ended.
#[derive(Debug, PartialEq, Clone)]
pub enum ReloadOutcome {
    /// The new configuration replaced the jobs; these steps carry it out.
    Reloaded(Vec<ReloadStep>),
    /// The file could not be loaded or a section did not parse: the jobs
    /// stay as they were, and this is the error to report.
    Kept(Error),
}

impl Config {
    /// Reads the configuration file's text (or the description of why it
    /// could not be read) into the jobs. A file that cannot be read or is not
    /// valid INI gives `CantLoadFile`; otherwise the sections are read as
    /// [`Config::parse_content_of_parserconfig`] reads them, in the order in
    /// which configparser hands them over. `None` where that reading would
    /// reach a lone double quote in an environment; the jobs then stay.
    pub fn load_config_text(&mut self, path: &str, loaded: core::result::Result<String, String>) -> (r:
        Option<Result<()>>)
        ensures
            match spec_file_sections(path@, text_view(loaded)) {
                Err(e) => {
                    &&& final(self)@ == old(self)@
                    &&& r matches Some(x) && res_view(x) == Err::<(), ErrorV>(e)
                },
                Ok(m) => exists|secs: Seq<(Seq<char>, RawView)>|
                    #[trigger] lists_sections(secs, m) && load_effect(
                        old(self)@,
                        final(self)@,
                        secs,
                        r,
                    ),
            },
    {
        let content = match file_content(path, loaded) {
            Err(e) => return Some(Err(e)),
            Ok(c) => c,
        };
        let ghost secs = content_sections(content);
        assert(lists_sections(secs, spec_file_sections(path@, text_view(loaded))->Ok_0));
        if Config::parse_would_panic(&content) {
            assert(load_effect(old(self)@, self@, secs, None));
            return None;
        }
        let r = self.parse_content_of_parserconfig(content);
        assert(load_effect(old(self)@, self@, secs, Some(r)));
        Some(r)
    }

    /// Reads the configuration file's text (or why it could not be read) as
    /// [`Config::load_config_text`] does and, where that succeeds, gives a
    /// start for each job, in order, that starts by itself.
    pub fn parse_config_file(&mut self, path: &str, loaded: core::result::Result<String, String>) -> (r:
        Option<Result<Vec<ReloadStep>>>)
        ensures
            match spec_file_sections(path@, text_view(loaded)) {
                Err(e) => {
                    &&& final(self)@ == old(self)@
                    &&& r matches Some(Err(x)) && x@ == e
                },
                Ok(m) => exists|secs: Seq<(Seq<char>, RawView)>|
                    #[trigger] lists_sections(secs, m) && startup_effect(
                        old(self)@,
                        *final(self),
                        secs,
                        r,
                    ),
            },
    {
        let content = match file_content(path, loaded) {
            Err(e) => return Some(Err(e)),
            Ok(c) => c,
        };
        let ghost secs = content_sections(content);
        assert(lists_sections(secs, spec_file_sections(path@, text_view(loaded))->Ok_0));
        if Config::parse_would_panic(&content) {
            assert(startup_effect(old(self)@, *self, secs, None));
            return None;
        }
        let r = match self.parse_content_of_parserconfig(content) {
            Err(e) => Some(Err(e)),
            Ok(()) => Some(Ok(self.autostart_jobs())),
        };
        assert(startup_effect(old(self)@, *self, secs, r));
        r
    }

    /// Reloads the configuration from the file's text (or the description of
    /// why it could not be read). Where the file cannot be loaded or a section
    /// does not parse, the jobs stay as they were and the error is kept for
    /// the log; otherwise the jobs become those of the file and the steps
    /// that carry out the change are returned. `None` where reading the
    /// sections, in the order in which configparser hands them over, would
    /// reach a lone double quote in an environment; the jobs then stay.
    pub fn reload_config(&mut self, path: &str, loaded: core::result::Result<String, String>) -> (r:
        Option<ReloadOutcome>)
        ensures
            match spec_file_sections(path@, text_view(loaded)) {
                Err(e) => {
                    &&& final(self)@ == old(self)@
                    &&& r matches Some(ReloadOutcome::Kept(x)) && x@ == e
                },
                Ok(m) => exists|secs: Seq<(Seq<char>, RawView)>|
                    #[trigger] lists_sections(secs, m) && reload_effect(
                        *old(self),
                        *final(self),
                        secs,
                        r,
                    ),
            },
    {
        let content = match file_content(path, loaded) {
            Err(e) => return Some(ReloadOutcome::Kept(e)),
            Ok(c) => c,
        };
        let ghost secs = content_sections(content);
        assert(lists_sections(secs, spec_file_sections(path@, text_view(loaded))->Ok_0));
        if Config::parse_would_panic(&content) {
            assert(reload_effect(*old(self), *self, secs, None));
            return None;
        }
        let r = match self.apply_reload(content) {
            Err(e) => Some(ReloadOutcome::Kept(e)),
            Ok(steps) => Some(ReloadOutcome::Reloaded(steps)),
        };
        assert(reload_effect(*old(self), *self, secs, r));
        r
    }
}

/// What a client asks a job for.
#[derive(Debug, PartialEq, Eq, Structural, Clone, Copy)]
pub enum JobCommand {
    Start,
    Stop,
    Restart,
    Status,
}

/// What a client's input asks for.
#[derive(Debug, PartialEq, Clone)]
pub enum ClientRequest {
    /// The status of the whole configuration (the input is `status` alone).
    ConfigStatus,
    /// Input that does not name a command and a configured job.
    Malformed,
    /// A command for a job, and for one of its processes where a number follows `:`.
    Run { command: JobCommand, job_name: String, target: Option<usize> },
    /// A command that no job understands, with the error to report.
    Unsupported(Error),
}

/// A [`ClientRequest`] with its strings as characters.
pub enum ClientRequestView {
    ConfigStatus,
    Malformed,
    Run { command: JobCommand, job_name: Seq<char>, target: Option<usize> },
    Unsupported(ErrorV),
}

impl DeepView for ClientRequest {
    type V = ClientRequestView;

    open spec fn deep_view(&self) -> ClientRequestView {
        match self {
            ClientRequest::ConfigStatus => ClientRequestView::ConfigStatus,
            ClientRequest::Malformed => ClientRequestView::Malformed,
            ClientRequest::Run { command, job_name, target } => ClientRequestView::Run {
                command: *command,
                job_name: job_name@,
                target: *target,
            },
            ClientRequest::Unsupported(e) => ClientRequestView::Unsupported(e@),
        }
    }
}

/// The request that a client's input makes of the configured jobs.
pub open spec fn spec_client_request(jobs: Map<Seq<char>, JobView>, raw: Seq<char>) -> ClientRequestView {
    if crate::text::trim(raw) == "status"@ {
        ClientRequestView::ConfigStatus
    } else {
        match crate::parse::spec_parse_client_input(jobs, raw) {
            Err(_) => ClientRequestView::Malformed,
            Ok((cmd, job_name, target)) => if cmd == "start"@ {
                ClientRequestView::Run { command: JobCommand::Start, job_name, target }
            } else if cmd == "stop"@ {
                ClientRequestView::Run { command: JobCommand::Stop, job_name, target }
            } else if cmd == "restart"@ {
                ClientRequestView::Run { command: JobCommand::Restart, job_name, target }
            } else if cmd == "status"@ {
                ClientRequestView::Run { command: JobCommand::Status, job_name, target }
            } else {
                ClientRequestView::Unsupported(
                    ErrorV::CommandIsNotSuported(
                        "Unknown command: Please try start, stop or restart!"@,
                    ),
                )
            },
        }
    }
}

/// Reads what a client's input asks of the configured jobs.
pub fn interpret_client_input(config: &mut Config, raw: &String) -> (r: ClientRequest)
    ensures
        *final(config) == *old(config),
        r.deep_view() == spec_client_request(old(config)@, raw@),
{
    let trimmed = crate::text::trim_string(raw.as_str());
    if trimmed == String::from_str("status") {
        return ClientRequest::ConfigStatus;
    }
    match crate::parse::parse_client_input(config, raw) {
        Err(_) => ClientRequest::Malformed,
        Ok((cmd, job_name, target)) => {
            if cmd == String::from_str("start") {
                ClientRequest::Run { command: JobCommand::Start, job_name, target }
            } else if cmd == String::from_str("stop") {
                ClientRequest::Run { command: JobCommand::Stop, job_name, target }
            } else if cmd == String::from_str("restart") {
                ClientRequest::Run { command: JobCommand::Restart, job_name, target }
            } else if cmd == String::from_str("status") {
                ClientRequest::Run { command: JobCommand::Status, job_name, target }
            } else {
                ClientRequest::Unsupported(
                    Error::CommandIsNotSuported(
                        String::from_str("Unknown command: Please try start, stop or restart!"),
                    ),
                )
            }
        },
    }
}

} // verus!
