//! Parsing of a job's configuration section into a [`Job`], and of the
//! commands that a client sends.

use crate::config::Config;
use crate::error::{res_view, Error, ErrorV, Result};
use crate::job::{default_job, AutorestartOptions, Job, JobView, StopSignals};
use crate::strmap::StrMap;
use crate::text::{
    chars_of, contains_whitespace, find_char, first_index, has_ws, lower_equals,
    lower_equals_chars, parse_bool, parse_bool_chars, parse_unsigned, parse_unsigned_chars,
    split_chars, split_on, split_whitespace, string_of, strings_view, sub_chars, trim, trim_chars,
    trim_start, trim_start_chars, words, last_index, rfind_char,
};
use vstd::prelude::*;

verus! {

/// A configuration section: each key with its value, or `None` for a key
/// written without a value.
pub type RawConfig = StrMap<Option<String>>;

/// The mathematical form of a [`RawConfig`].
pub type RawView = Map<Seq<char>, Option<Seq<char>>>;

/// What looking up `name` in a section gives.
pub open spec fn field(raw: RawView, name: Seq<char>) -> Option<Option<Seq<char>>> {
    if raw.contains_key(name) {
        Some(raw[name])
    } else {
        None
    }
}


// ---------------------------------------------------------------------------
// Values of a field
// ---------------------------------------------------------------------------

/// A type that a field's text can be parsed into, as `str::parse` does.
pub trait FieldValue: Sized + DeepView {
    /// What parsing the text gives, if it is valid.
    spec fn spec_parse(s: Seq<char>) -> Option<Self::V>;

    /// The name of the type in error messages.
    spec fn spec_type_label() -> Seq<char>;

    fn parse_field(s: &String) -> (r: Option<Self>)
        ensures
            r.deep_view() == Self::spec_parse(s@),
    ;

    fn type_label() -> (r: String)
        ensures
            r@ == Self::spec_type_label(),
    ;
}

impl FieldValue for u32 {
    open spec fn spec_parse(s: Seq<char>) -> Option<u32> {
        match parse_unsigned(s, 10, u32::MAX as nat) {
            Some(n) => Some(n as u32),
            None => None,
        }
    }

    open spec fn spec_type_label() -> Seq<char> {
        "u32"@
    }

    fn parse_field(s: &String) -> (r: Option<u32>) {
        let cs = chars_of(s.as_str());
        match parse_unsigned_chars(&cs, 10, u32::MAX as u64) {
            Some(n) => Some(n as u32),
            None => None,
        }
    }

    fn type_label() -> (r: String) {
        String::from_str("u32")
    }
}

impl FieldValue for bool {
    open spec fn spec_parse(s: Seq<char>) -> Option<bool> {
        parse_bool(s)
    }

    open spec fn spec_type_label() -> Seq<char> {
        "bool"@
    }

    fn parse_field(s: &String) -> (r: Option<bool>) {
        let cs = chars_of(s.as_str());
        parse_bool_chars(&cs)
    }

    fn type_label() -> (r: String) {
        String::from_str("bool")
    }
}

impl FieldValue for String {
    open spec fn spec_parse(s: Seq<char>) -> Option<Seq<char>> {
        Some(s)
    }

    open spec fn spec_type_label() -> Seq<char> {
        "alloc::string::String"@
    }

    fn parse_field(s: &String) -> (r: Option<String>) {
        Some(s.clone())
    }

    fn type_label() -> (r: String) {
        String::from_str("alloc::string::String")
    }
}

// ---------------------------------------------------------------------------
// Specifications of the field parsers
// ---------------------------------------------------------------------------

/// A field parsed as a `T`: its default when absent or without value.
pub open spec fn spec_raw_field<T: FieldValue>(raw: RawView, name: Seq<char>, default: T::V) -> core::result::Result<
    T::V,
    ErrorV,
> {
    match field(raw, name) {
        Some(Some(v)) => match T::spec_parse(v) {
            Some(x) => Ok(x),
            None => Err(
                ErrorV::CantParseField {
                    field_name: name,
                    value: v,
                    type_label: T::spec_type_label(),
                },
            ),
        },
        _ => Ok(default),
    }
}

/// A field that must be one word: whitespace in it is an error, and an
/// empty value counts as absent.
pub open spec fn spec_one_word(raw: RawView, name: Seq<char>, default: Option<Seq<char>>) -> core::result::Result<
    Option<Seq<char>>,
    ErrorV,
> {
    match field(raw, name) {
        Some(Some(s)) => if has_ws(s) {
            Err(ErrorV::FieldBadFormat { field_name: name, msg: "Field contain space"@ })
        } else if s.len() == 0 {
            Ok(default)
        } else {
            Ok(Some(s))
        },
        _ => Ok(default),
    }
}

/// The command line: the `command` field, or nothing.
pub open spec fn spec_command_line(raw: RawView) -> Seq<char> {
    match field(raw, "command"@) {
        Some(Some(v)) => v,
        _ => Seq::empty(),
    }
}

/// The program: the first word of the command line. A `command` written
/// with an empty value is refused as empty; one that is absent, or holds
/// only whitespace, is not set.
pub open spec fn spec_command(raw: RawView) -> core::result::Result<Seq<char>, ErrorV> {
    let w = words(spec_command_line(raw));
    if field(raw, "command"@) == Some(Some(Seq::<char>::empty())) {
        Err(ErrorV::FieldBadFormat { field_name: "command"@, msg: "Field is empty"@ })
    } else if w.len() == 0 {
        Err(ErrorV::FieldCommandIsNotSet)
    } else {
        Ok(w[0])
    }
}

/// The arguments: the words of the command line after the first, if any.
pub open spec fn spec_arguments(raw: RawView) -> core::result::Result<Option<Seq<Seq<char>>>, ErrorV> {
    let w = words(spec_command_line(raw));
    if w.len() <= 1 {
        Ok(None)
    } else {
        Ok(Some(w.skip(1)))
    }
}

/// Three characters, each from `0` to `8`.
pub open spec fn umask_shape(s: Seq<char>) -> bool {
    &&& s.len() == 3
    &&& forall|i: int| 0 <= i < 3 ==> 48 <= (#[trigger] s[i]) as u32 <= 56
}

/// The `umask` field: three octal digits.
pub open spec fn spec_umask(raw: RawView) -> core::result::Result<Option<u32>, ErrorV> {
    match spec_one_word(raw, "umask"@, None) {
        Err(e) => Err(e),
        Ok(None) => Ok(None),
        Ok(Some(s)) => if !umask_shape(s) {
            Err(
                ErrorV::FieldBadFormat {
                    field_name: "umask"@,
                    msg: "Field contain too much characters"@,
                },
            )
        } else {
            match parse_unsigned(s, 8, u32::MAX as nat) {
                Some(n) => Ok(Some(n as u32)),
                None => Err(
                    ErrorV::CantParseField {
                        field_name: "umask"@,
                        value: s,
                        type_label: "u32"@,
                    },
                ),
            }
        },
    }
}

/// A value between double quotes loses them.
pub open spec fn unquote(v: Seq<char>) -> Seq<char> {
    if v.len() >= 2 && v[0] == '"' && v.last() == '"' {
        v.subrange(1, v.len() - 1)
    } else {
        v
    }
}

/// An environment entry `key=value`, split at its first `=`; the key loses
/// the whitespace before it (as after `, `), the value surrounding double quotes.
pub open spec fn env_entry(e: Seq<char>) -> Option<(Seq<char>, Seq<char>)> {
    match first_index(e, '=') {
        None => None,
        Some(p) => Some((trim_start(e.take(p)), unquote(e.skip(p + 1)))),
    }
}

/// An entry whose value is a lone double quote, which cannot be unquoted.
pub open spec fn lone_quote(e: Seq<char>) -> bool {
    match first_index(e, '=') {
        None => false,
        Some(p) => e.skip(p + 1) == seq!['"'],
    }
}

/// The environment that the entries give, later entries overriding earlier
/// ones, or the error of the first entry without `=`.
pub open spec fn env_fold(entries: Seq<Seq<char>>) -> core::result::Result<Map<Seq<char>, Seq<char>>, ErrorV>
    decreases entries.len(),
{
    if entries.len() == 0 {
        Ok(Map::empty())
    } else {
        match env_fold(entries.drop_last()) {
            Err(e) => Err(e),
            Ok(m) => match env_entry(entries.last()) {
                None => Err(ErrorV::CantParseEnvEntry(entries.last())),
                Some((k, v)) => Ok(m.insert(k, v)),
            },
        }
    }
}

/// Reading the entries reaches an entry with a lone quote before any error.
pub open spec fn env_panics(entries: Seq<Seq<char>>) -> bool
    decreases entries.len(),
{
    if entries.len() == 0 {
        false
    } else {
        env_panics(entries.drop_last()) || (env_fold(entries.drop_last()) is Ok && lone_quote(
            entries.last(),
        ))
    }
}

/// The `environment` field: comma-separated `key=value` entries.
pub open spec fn spec_environment(raw: RawView) -> core::result::Result<Option<Map<Seq<char>, Seq<char>>>, ErrorV> {
    match field(raw, "environment"@) {
        Some(Some(e)) => match env_fold(split_on(e, ',')) {
            Ok(m) => Ok(Some(m)),
            Err(x) => Err(x),
        },
        _ => Ok(None),
    }
}

/// Reading the `environment` field would slice a lone quote.
pub open spec fn spec_environment_panics(raw: RawView) -> bool {
    match field(raw, "environment"@) {
        Some(Some(e)) => env_panics(split_on(e, ',')),
        _ => false,
    }
}

/// The exit codes that the pieces give, each trimmed and parsed as a `u8`.
pub open spec fn codes_fold(parts: Seq<Seq<char>>, whole: Seq<char>) -> core::result::Result<Seq<u8>, ErrorV>
    decreases parts.len(),
{
    if parts.len() == 0 {
        Ok(Seq::empty())
    } else {
        match codes_fold(parts.drop_last(), whole) {
            Err(e) => Err(e),
            Ok(v) => match parse_unsigned(trim(parts.last()), 10, 255) {
                Some(n) => Ok(v.push(n as u8)),
                None => Err(
                    ErrorV::CantParseField {
                        field_name: "exitcodes"@,
                        value: whole,
                        type_label: "u8"@,
                    },
                ),
            },
        }
    }
}

/// The `exitcodes` field: comma-separated numbers from 0 to 255.
pub open spec fn spec_exitcodes(raw: RawView) -> core::result::Result<Seq<u8>, ErrorV> {
    match field(raw, "exitcodes"@) {
        Some(Some(s)) => codes_fold(split_on(s, ','), s),
        _ => Ok(seq![1u8]),
    }
}

/// The `stopsignal` field: a signal name in any case.
pub open spec fn spec_stop_signal(raw: RawView) -> core::result::Result<StopSignals, ErrorV> {
    match field(raw, "stopsignal"@) {
        Some(Some(s)) => if lower_equals(s, "hup"@) {
            Ok(StopSignals::HUP)
        } else if lower_equals(s, "int"@) {
            Ok(StopSignals::INT)
        } else if lower_equals(s, "quit"@) {
            Ok(StopSignals::QUIT)
        } else if lower_equals(s, "kill"@) {
            Ok(StopSignals::KILL)
        } else if lower_equals(s, "usr1"@) {
            Ok(StopSignals::USR1)
        } else if lower_equals(s, "usr2"@) {
            Ok(StopSignals::USR2)
        } else if lower_equals(s, "term"@) {
            Ok(StopSignals::TERM)
        } else {
            Err(ErrorV::FieldBadFormat { field_name: "stopsignal"@, msg: s })
        },
        _ => Ok(StopSignals::TERM),
    }
}

/// The `autorestart` field: `always`, `never` or `unexpected`.
pub open spec fn spec_autorestart(raw: RawView) -> core::result::Result<AutorestartOptions, ErrorV> {
    match field(raw, "autorestart"@) {
        Some(Some(s)) => if s == "always"@ {
            Ok(AutorestartOptions::Always)
        } else if s == "never"@ {
            Ok(AutorestartOptions::Never)
        } else if s == "unexpected"@ {
            Ok(AutorestartOptions::UnexpectedExit)
        } else {
            Err(ErrorV::FieldBadFormat { field_name: "autorestart"@, msg: s })
        },
        _ => Ok(AutorestartOptions::UnexpectedExit),
    }
}

pub open spec fn spec_num_procs(raw: RawView) -> core::result::Result<u32, ErrorV> {
    spec_raw_field::<u32>(raw, "numprocs"@, 1)
}

pub open spec fn spec_autostart(raw: RawView) -> core::result::Result<bool, ErrorV> {
    spec_raw_field::<bool>(raw, "autostart"@, true)
}

pub open spec fn spec_start_secs(raw: RawView) -> core::result::Result<u32, ErrorV> {
    spec_raw_field::<u32>(raw, "startsecs"@, 1)
}

pub open spec fn spec_start_retries(raw: RawView) -> core::result::Result<u32, ErrorV> {
    spec_raw_field::<u32>(raw, "startretries"@, 3)
}

pub open spec fn spec_stop_wait_secs(raw: RawView) -> core::result::Result<u32, ErrorV> {
    spec_raw_field::<u32>(raw, "stopwaitsecs"@, 10)
}

pub open spec fn spec_stderr(raw: RawView) -> core::result::Result<Option<Seq<char>>, ErrorV> {
    spec_one_word(raw, "stderr"@, None)
}

pub open spec fn spec_stdout(raw: RawView) -> core::result::Result<Option<Seq<char>>, ErrorV> {
    spec_one_word(raw, "stdout"@, None)
}

pub open spec fn spec_work_dir(raw: RawView) -> core::result::Result<Option<Seq<char>>, ErrorV> {
    spec_one_word(raw, "workdir"@, None)
}

pub open spec fn err_of<T>(r: core::result::Result<T, ErrorV>) -> ErrorV
    recommends
        r is Err,
{
    match r {
        Err(e) => e,
        Ok(_) => ErrorV::NoJobEntry,
    }
}

pub open spec fn ok_of<T>(r: core::result::Result<T, ErrorV>, d: T) -> T {
    match r {
        Ok(v) => v,
        Err(_) => d,
    }
}

/// Every field that is read before the environment parses.
pub open spec fn fields_before_environment_ok(raw: RawView) -> bool {
    &&& spec_num_procs(raw) is Ok
    &&& spec_command(raw) is Ok
    &&& spec_arguments(raw) is Ok
    &&& spec_autostart(raw) is Ok
    &&& spec_autorestart(raw) is Ok
    &&& spec_exitcodes(raw) is Ok
    &&& spec_start_secs(raw) is Ok
    &&& spec_start_retries(raw) is Ok
    &&& spec_stop_signal(raw) is Ok
    &&& spec_stop_wait_secs(raw) is Ok
    &&& spec_stderr(raw) is Ok
    &&& spec_stdout(raw) is Ok
}

/// Parsing the section would slice a lone quote in its environment.
pub open spec fn spec_parse_job_panics(raw: RawView) -> bool {
    fields_before_environment_ok(raw) && spec_environment_panics(raw)
}

/// The job that a section describes, or the error of the first field that
/// does not parse, the fields being read in this order: `numprocs`,
/// `command`, its arguments, `autostart`, `autorestart`, `exitcodes`,
/// `startsecs`, `startretries`, `stopsignal`, `stopwaitsecs`, `stderr`,
/// `stdout`, `environment`, `workdir`, `umask`.
pub open spec fn spec_parse_job(raw: RawView) -> core::result::Result<JobView, ErrorV> {
    let d = default_job();
    if spec_num_procs(raw) is Err {
        Err(err_of(spec_num_procs(raw)))
    } else if spec_command(raw) is Err {
        Err(err_of(spec_command(raw)))
    } else if spec_arguments(raw) is Err {
        Err(err_of(spec_arguments(raw)))
    } else if spec_autostart(raw) is Err {
        Err(err_of(spec_autostart(raw)))
    } else if spec_autorestart(raw) is Err {
        Err(err_of(spec_autorestart(raw)))
    } else if spec_exitcodes(raw) is Err {
        Err(err_of(spec_exitcodes(raw)))
    } else if spec_start_secs(raw) is Err {
        Err(err_of(spec_start_secs(raw)))
    } else if spec_start_retries(raw) is Err {
        Err(err_of(spec_start_retries(raw)))
    } else if spec_stop_signal(raw) is Err {
        Err(err_of(spec_stop_signal(raw)))
    } else if spec_stop_wait_secs(raw) is Err {
        Err(err_of(spec_stop_wait_secs(raw)))
    } else if spec_stderr(raw) is Err {
        Err(err_of(spec_stderr(raw)))
    } else if spec_stdout(raw) is Err {
        Err(err_of(spec_stdout(raw)))
    } else if spec_environment(raw) is Err {
        Err(err_of(spec_environment(raw)))
    } else if spec_work_dir(raw) is Err {
        Err(err_of(spec_work_dir(raw)))
    } else if spec_umask(raw) is Err {
        Err(err_of(spec_umask(raw)))
    } else {
        Ok(
            JobView {
                command: ok_of(spec_command(raw), d.command),
                arguments: ok_of(spec_arguments(raw), d.arguments),
                num_procs: ok_of(spec_num_procs(raw), d.num_procs),
                auto_start: ok_of(spec_autostart(raw), d.auto_start),
                auto_restart: ok_of(spec_autorestart(raw), d.auto_restart),
                exit_codes: ok_of(spec_exitcodes(raw), d.exit_codes),
                start_secs: ok_of(spec_start_secs(raw), d.start_secs),
                start_retries: ok_of(spec_start_retries(raw), d.start_retries),
                stop_signal: ok_of(spec_stop_signal(raw), d.stop_signal),
                stop_wait_secs: ok_of(spec_stop_wait_secs(raw), d.stop_wait_secs),
                stderr_file: ok_of(spec_stderr(raw), d.stderr_file),
                stdout_file: ok_of(spec_stdout(raw), d.stdout_file),
                environment: ok_of(spec_environment(raw), d.environment),
                work_dir: ok_of(spec_work_dir(raw), d.work_dir),
                umask: ok_of(spec_umask(raw), d.umask),
            },
        )
    }
}

// ---------------------------------------------------------------------------
// Field parsers
// ---------------------------------------------------------------------------

/// The value of `field_name` parsed as a `T`, or `default` where the field
/// is absent or has no value.
pub fn _parse_raw_config_field<T: FieldValue>(raw: &RawConfig, field_name: String, default: T) -> (r: Result<T>)
    ensures
        res_view(r) == spec_raw_field::<T>(raw@, field_name@, default.deep_view()),
{
    match raw.get(field_name.as_str()) {
        Some(Some(value)) => match T::parse_field(value) {
            Some(x) => Ok(x),
            None => Err(
                Error::CantParseField {
                    field_name,
                    value: value.clone(),
                    type_label: T::type_label(),
                },
            ),
        },
        _ => Ok(default),
    }
}

/// The value of `field_name`, which must hold no whitespace; `default` where
/// the field is absent, without value or empty.
pub fn _parse_one_word_field(raw: &RawConfig, field_name: String, default: Option<String>) -> (r:
    Result<Option<String>>)
    ensures
        res_view(r) == spec_one_word(raw@, field_name@, default.deep_view()),
{
    match raw.get(field_name.as_str()) {
        Some(Some(s)) => {
            let cs = chars_of(s.as_str());
            if contains_whitespace(&cs) {
                Err(Error::FieldBadFormat { field_name, msg: String::from_str("Field contain space") })
            } else if cs.len() == 0 {
                Ok(default)
            } else {
                Ok(Some(s.clone()))
            }
        },
        _ => Ok(default),
    }
}

/// The command line, or an empty string where `command` is absent.
pub fn _parse_command_line(raw: &RawConfig) -> (r: Result<String>)
    ensures
        res_view(r) == Ok::<Seq<char>, ErrorV>(spec_command_line(raw@)),
{
    let r = _parse_raw_config_field::<String>(raw, String::from_str("command"), String::new());
    match r {
        Ok(s) => Ok(s),
        Err(e) => Err(e),
    }
}

/// The words of the command line after the first, or `None` if there are none.
pub fn _parse_arguments(raw: &RawConfig) -> (r: Result<Option<Vec<String>>>)
    ensures
        res_view(r) == spec_arguments(raw@),
{
    let line = match _parse_command_line(raw) {
        Ok(s) => s,
        Err(e) => return Err(e),
    };
    let mut w = split_whitespace(line.as_str());
    if w.len() <= 1 {
        Ok(None)
    } else {
        let ghost all = w@;
        w.remove(0);
        assert(w.deep_view() =~= words(line@).skip(1)) by {
            assert forall|i: int| 0 <= i < w@.len() implies #[trigger] w.deep_view()[i] == words(
                line@,
            ).skip(1)[i] by {
                assert(w@[i] == all[i + 1]);
                assert(strings_view(all)[i + 1] == all[i + 1]@);
            }
        }
        Ok(Some(w))
    }
}

/// The program: the first word of the command line.
pub fn _parse_command(raw: &RawConfig) -> (r: Result<String>)
    ensures
        res_view(r) == spec_command(raw@),
{
    let line = match _parse_command_line(raw) {
        Ok(s) => s,
        Err(e) => return Err(e),
    };
    if let Some(Some(c)) = raw.get("command") {
        if c.as_str().unicode_len() == 0 {
            assert(c@ =~= Seq::<char>::empty());
            return Err(
                Error::FieldBadFormat {
                    field_name: String::from_str("command"),
                    msg: String::from_str("Field is empty"),
                },
            );
        }
    }
    let w = split_whitespace(line.as_str());
    if w.len() == 0 {
        Err(Error::FieldCommandIsNotSet)
    } else {
        assert(strings_view(w@)[0] == w@[0]@);
        Ok(w[0].clone())
    }
}

fn umask_shape_chars(cs: &Vec<char>) -> (b: bool)
    ensures
        b == umask_shape(cs@),
{
    if cs.len() != 3 {
        return false;
    }
    let mut i: usize = 0;
    while i < 3
        invariant
            i <= 3,
            cs@.len() == 3,
            forall|j: int| 0 <= j < i ==> 48 <= (#[trigger] cs@[j]) as u32 <= 56,
        decreases 3 - i,
    {
        let u = cs[i] as u32;
        if !(48 <= u && u <= 56) {
            return false;
        }
        i = i + 1;
    }
    true
}

/// The `umask` field: three digits from `0` to `8`, read in octal.
pub fn _parse_umask(raw: &RawConfig) -> (r: Result<Option<u32>>)
    ensures
        res_view(r) == spec_umask(raw@),
{
    let umask_str = match _parse_one_word_field(raw, String::from_str("umask"), None) {
        Err(e) => return Err(e),
        Ok(None) => return Ok(None),
        Ok(Some(s)) => s,
    };
    let cs = chars_of(umask_str.as_str());
    if !umask_shape_chars(&cs) {
        return Err(
            Error::FieldBadFormat {
                field_name: String::from_str("umask"),
                msg: String::from_str("Field contain too much characters"),
            },
        );
    }
    match parse_unsigned_chars(&cs, 8, u32::MAX as u64) {
        Some(n) => Ok(Some(n as u32)),
        None => Err(
            Error::CantParseField {
                field_name: String::from_str("umask"),
                value: umask_str,
                type_label: String::from_str("u32"),
            },
        ),
    }
}

proof fn lemma_env_panics_prefix(entries: Seq<Seq<char>>, k: int)
    requires
        0 <= k <= entries.len(),
        env_panics(entries.take(k)),
    ensures
        env_panics(entries),
    decreases entries.len(),
{
    if k == entries.len() {
        assert(entries.take(k) == entries);
    } else {
        assert(entries.drop_last().take(k) == entries.take(k));
        lemma_env_panics_prefix(entries.drop_last(), k);
    }
}

proof fn lemma_env_fold_err_prefix(entries: Seq<Seq<char>>, k: int)
    requires
        0 <= k <= entries.len(),
        env_fold(entries.take(k)) is Err,
    ensures
        env_fold(entries) == env_fold(entries.take(k)),
    decreases entries.len(),
{
    if k == entries.len() {
        assert(entries.take(k) == entries);
    } else {
        assert(entries.drop_last().take(k) == entries.take(k));
        lemma_env_fold_err_prefix(entries.drop_last(), k);
    }
}

proof fn lemma_codes_fold_err_prefix(parts: Seq<Seq<char>>, whole: Seq<char>, k: int)
    requires
        0 <= k <= parts.len(),
        codes_fold(parts.take(k), whole) is Err,
    ensures
        codes_fold(parts, whole) == codes_fold(parts.take(k), whole),
    decreases parts.len(),
{
    if k == parts.len() {
        assert(parts.take(k) == parts);
    } else {
        assert(parts.drop_last().take(k) == parts.take(k));
        lemma_codes_fold_err_prefix(parts.drop_last(), whole, k);
    }
}

/// The `environment` field: comma-separated `key=value` entries, written
/// with or without a space after the comma; keys lose the whitespace before
/// them, values surrounding double quotes; later entries override earlier ones.
pub fn _parse_environment(raw: &RawConfig) -> (r: Result<Option<StrMap<String>>>)
    requires
        !spec_environment_panics(raw@),
    ensures
        res_view(r) == spec_environment(raw@),
{
    let raw_env = match raw.get("environment") {
        Some(Some(e)) => e,
        _ => return Ok(None),
    };
    let cs = chars_of(raw_env.as_str());
    let entries = split_chars(&cs, ',');
    let ghost pieces = entries@.map_values(|p: Vec<char>| p@);
    assert(pieces == split_on(raw_env@, ','));
    let mut map: StrMap<String> = StrMap::new();
    let mut i: usize = 0;
    assert(pieces.take(0) == Seq::<Seq<char>>::empty());
    while i < entries.len()
        invariant
            i <= entries@.len() == pieces.len(),
            pieces == entries@.map_values(|p: Vec<char>| p@),
            pieces == split_on(raw_env@, ','),
            field(raw@, "environment"@) == Some(Some(raw_env@)),
            !env_panics(pieces),
            env_fold(pieces.take(i as int)) == Ok::<Map<Seq<char>, Seq<char>>, ErrorV>(map@),
        decreases entries.len() - i,
    {
        let entry = &entries[i];
        let ghost e = pieces[i as int];
        assert(entry@ == e);
        assert(pieces.take(i + 1).drop_last() == pieces.take(i as int));
        assert(pieces.take(i + 1).last() == e);
        let p = match find_char(entry, '=') {
            Some(p) => p,
            None => {
                proof {
                    assert(entry@.subrange(0, entry@.len() as int) == e);
                    assert(env_entry(e) is None);
                    assert(env_fold(pieces.take(i + 1)) == Err::<Map<Seq<char>, Seq<char>>, ErrorV>(ErrorV::CantParseEnvEntry(e)));
                    lemma_env_fold_err_prefix(pieces, i + 1);
                }
                return Err(Error::CantParseEnvEntry(string_of(entry, 0, entry.len())));
            },
        };
        let n = entry.len();
        let key_part = sub_chars(entry, 0, p);
        let key_chars = trim_start_chars(&key_part);
        let key = string_of(&key_chars, 0, key_chars.len());
        assert(key_chars@.subrange(0, key_chars@.len() as int) == key_chars@);
        assert(key_part@ == e.take(p as int));
        let value_part = sub_chars(entry, p + 1, n);
        assert(value_part@ == e.skip(p + 1));
        let vt = value_part;
        let ghost v = e.skip(p + 1);
        let m = vt.len();
        let value = if m >= 1 && vt[0] == '"' && vt[m - 1] == '"' {
            if m == 1 {
                proof {
                    assert(v =~= seq!['"']);
                    assert(env_panics(pieces.take(i + 1)));
                    lemma_env_panics_prefix(pieces, i + 1);
                }
                string_of(&vt, 0, m)
            } else {
                assert(unquote(v) == vt@.subrange(1, m - 1));
                string_of(&vt, 1, m - 1)
            }
        } else {
            assert(vt@.subrange(0, m as int) == vt@);
            string_of(&vt, 0, m)
        };
        map.insert(key, value);
        i = i + 1;
    }
    assert(pieces.take(entries@.len() as int) == pieces);
    Ok(Some(map))
}

/// The `workdir` field.
pub fn _parse_working_directory(raw: &RawConfig) -> (r: Result<Option<String>>)
    ensures
        res_view(r) == spec_work_dir(raw@),
{
    _parse_one_word_field(raw, String::from_str("workdir"), None)
}

/// The `stderr` field.
pub fn _parse_stderr_file(raw: &RawConfig) -> (r: Result<Option<String>>)
    ensures
        res_view(r) == spec_stderr(raw@),
{
    _parse_one_word_field(raw, String::from_str("stderr"), None)
}

/// The `stdout` field.
pub fn _parse_stdout_file(raw: &RawConfig) -> (r: Result<Option<String>>)
    ensures
        res_view(r) == spec_stdout(raw@),
{
    _parse_one_word_field(raw, String::from_str("stdout"), None)
}

/// The `stopwaitsecs` field, 10 by default.
pub fn _parse_stop_wait_seconds(raw: &RawConfig) -> (r: Result<u32>)
    ensures
        res_view(r) == spec_stop_wait_secs(raw@),
{
    _parse_raw_config_field::<u32>(raw, String::from_str("stopwaitsecs"), 10)
}

/// The `stopsignal` field, `TERM` by default.
pub fn _parse_stop_signal(raw: &RawConfig) -> (r: Result<StopSignals>)
    ensures
        res_view(r) == spec_stop_signal(raw@),
{
    let s = match raw.get("stopsignal") {
        Some(Some(s)) => s,
        _ => return Ok(StopSignals::TERM),
    };
    let cs = chars_of(s.as_str());
    if lower_equals_chars(&cs, &chars_of("hup")) {
        Ok(StopSignals::HUP)
    } else if lower_equals_chars(&cs, &chars_of("int")) {
        Ok(StopSignals::INT)
    } else if lower_equals_chars(&cs, &chars_of("quit")) {
        Ok(StopSignals::QUIT)
    } else if lower_equals_chars(&cs, &chars_of("kill")) {
        Ok(StopSignals::KILL)
    } else if lower_equals_chars(&cs, &chars_of("usr1")) {
        Ok(StopSignals::USR1)
    } else if lower_equals_chars(&cs, &chars_of("usr2")) {
        Ok(StopSignals::USR2)
    } else if lower_equals_chars(&cs, &chars_of("term")) {
        Ok(StopSignals::TERM)
    } else {
        Err(Error::FieldBadFormat { field_name: String::from_str("stopsignal"), msg: s.clone() })
    }
}

/// The `startretries` field, 3 by default.
pub fn _parse_start_retries(raw: &RawConfig) -> (r: Result<u32>)
    ensures
        res_view(r) == spec_start_retries(raw@),
{
    _parse_raw_config_field::<u32>(raw, String::from_str("startretries"), 3)
}

/// The `startsecs` field, 1 by default.
pub fn _parse_start_secs(raw: &RawConfig) -> (r: Result<u32>)
    ensures
        res_view(r) == spec_start_secs(raw@),
{
    _parse_raw_config_field::<u32>(raw, String::from_str("startsecs"), 1)
}

/// The `exitcodes` field: comma-separated codes, `[1]` by default.
pub fn _parse_exitcodes(raw: &RawConfig) -> (r: Result<Vec<u8>>)
    ensures
        res_view(r) == spec_exitcodes(raw@),
{
    let s = match raw.get("exitcodes") {
        Some(Some(s)) => s,
        _ => {
            let mut d: Vec<u8> = Vec::new();
            d.push(1);
            assert(d.deep_view() =~= seq![1u8]);
            return Ok(d);
        },
    };
    let cs = chars_of(s.as_str());
    let parts = split_chars(&cs, ',');
    let ghost pieces = parts@.map_values(|p: Vec<char>| p@);
    assert(pieces == split_on(s@, ','));
    let mut codes: Vec<u8> = Vec::new();
    let mut i: usize = 0;
    assert(pieces.take(0) == Seq::<Seq<char>>::empty());
    while i < parts.len()
        invariant
            i <= parts@.len() == pieces.len(),
            pieces == parts@.map_values(|p: Vec<char>| p@),
            pieces == split_on(s@, ','),
            field(raw@, "exitcodes"@) == Some(Some(s@)),
            codes_fold(pieces.take(i as int), s@) == Ok::<Seq<u8>, ErrorV>(codes@),
        decreases parts.len() - i,
    {
        assert(pieces.take(i + 1).drop_last() == pieces.take(i as int));
        assert(pieces.take(i + 1).last() == parts@[i as int]@);
        let t = trim_chars(&parts[i]);
        match parse_unsigned_chars(&t, 10, 255) {
            Some(n) => {
                codes.push(n as u8);
            },
            None => {
                proof {
                    assert(t@ == trim(pieces.take(i + 1).last()));
                    assert(codes_fold(pieces.take(i + 1), s@) is Err);
                    lemma_codes_fold_err_prefix(pieces, s@, i + 1);
                }
                return Err(
                    Error::CantParseField {
                        field_name: String::from_str("exitcodes"),
                        value: s.clone(),
                        type_label: String::from_str("u8"),
                    },
                );
            },
        }
        i = i + 1;
    }
    assert(pieces.take(parts@.len() as int) == pieces);
    assert(codes.deep_view() =~= codes@);
    Ok(codes)
}

/// The `autorestart` field, `unexpected` by default.
pub fn parse_autorestart(raw: &RawConfig) -> (r: Result<AutorestartOptions>)
    ensures
        res_view(r) == spec_autorestart(raw@),
{
    let s = match raw.get("autorestart") {
        Some(Some(s)) => s,
        _ => return Ok(AutorestartOptions::UnexpectedExit),
    };
    if *s == String::from_str("always") {
        Ok(AutorestartOptions::Always)
    } else if *s == String::from_str("never") {
        Ok(AutorestartOptions::Never)
    } else if *s == String::from_str("unexpected") {
        Ok(AutorestartOptions::UnexpectedExit)
    } else {
        Err(Error::FieldBadFormat { field_name: String::from_str("autorestart"), msg: s.clone() })
    }
}

/// The `autostart` field, `true` by default.
pub fn parse_autostart(raw: &RawConfig) -> (r: Result<bool>)
    ensures
        res_view(r) == spec_autostart(raw@),
{
    _parse_raw_config_field::<bool>(raw, String::from_str("autostart"), true)
}

/// The `numprocs` field, 1 by default.
pub fn parse_num_procs(raw: &RawConfig) -> (r: Result<u32>)
    ensures
        res_view(r) == spec_num_procs(raw@),
{
    _parse_raw_config_field::<u32>(raw, String::from_str("numprocs"), 1)
}

// ---------------------------------------------------------------------------
// A whole section
// ---------------------------------------------------------------------------

/// The job that a configuration section describes, or the first error.
pub fn parse_job(raw: &RawConfig) -> (r: Result<Job>)
    requires
        !spec_parse_job_panics(raw@),
    ensures
        res_view(r) == spec_parse_job(raw@),
{
    let num_procs = match parse_num_procs(raw) {
        Ok(v) => v,
        Err(e) => return Err(e),
    };
    let command = match _parse_command(raw) {
        Ok(v) => v,
        Err(e) => return Err(e),
    };
    let arguments = match _parse_arguments(raw) {
        Ok(v) => v,
        Err(e) => return Err(e),
    };
    let auto_start = match parse_autostart(raw) {
        Ok(v) => v,
        Err(e) => return Err(e),
    };
    let auto_restart = match parse_autorestart(raw) {
        Ok(v) => v,
        Err(e) => return Err(e),
    };
    let exit_codes = match _parse_exitcodes(raw) {
        Ok(v) => v,
        Err(e) => return Err(e),
    };
    let start_secs = match _parse_start_secs(raw) {
        Ok(v) => v,
        Err(e) => return Err(e),
    };
    let start_retries = match _parse_start_retries(raw) {
        Ok(v) => v,
        Err(e) => return Err(e),
    };
    let stop_signal = match _parse_stop_signal(raw) {
        Ok(v) => v,
        Err(e) => return Err(e),
    };
    let stop_wait_secs = match _parse_stop_wait_seconds(raw) {
        Ok(v) => v,
        Err(e) => return Err(e),
    };
    let stderr_file = match _parse_stderr_file(raw) {
        Ok(v) => v,
        Err(e) => return Err(e),
    };
    let stdout_file = match _parse_stdout_file(raw) {
        Ok(v) => v,
        Err(e) => return Err(e),
    };
    let environment = match _parse_environment(raw) {
        Ok(v) => v,
        Err(e) => return Err(e),
    };
    let work_dir = match _parse_working_directory(raw) {
        Ok(v) => v,
        Err(e) => return Err(e),
    };
    let umask = match _parse_umask(raw) {
        Ok(v) => v,
        Err(e) => return Err(e),
    };
    assert(exit_codes@ =~= exit_codes.deep_view());
    let ghost d = default_job();
    assert(spec_parse_job(raw@) == Ok::<JobView, ErrorV>(
        JobView {
            command: command@,
            arguments: arguments.deep_view(),
            num_procs,
            auto_start,
            auto_restart,
            exit_codes: exit_codes@,
            start_secs,
            start_retries,
            stop_signal,
            stop_wait_secs,
            stderr_file: stderr_file.deep_view(),
            stdout_file: stdout_file.deep_view(),
            environment: environment.deep_view(),
            work_dir: work_dir.deep_view(),
            umask,
        },
    ));
    Ok(
        Job {
            command,
            arguments,
            num_procs,
            auto_start,
            auto_restart,
            exit_codes,
            start_secs,
            start_retries,
            stop_signal,
            stop_wait_secs,
            stderr_file,
            stdout_file,
            environment,
            work_dir,
            umask,
        },
    )
}

/// Whether reading the `environment` field slices a lone double quote.
pub fn environment_panics(raw: &RawConfig) -> (b: bool)
    ensures
        b == spec_environment_panics(raw@),
{
    let raw_env = match raw.get("environment") {
        Some(Some(e)) => e,
        _ => return false,
    };
    let cs = chars_of(raw_env.as_str());
    let entries = split_chars(&cs, ',');
    let ghost pieces = entries@.map_values(|p: Vec<char>| p@);
    let mut i: usize = 0;
    assert(pieces.take(0) == Seq::<Seq<char>>::empty());
    while i < entries.len()
        invariant
            i <= entries@.len() == pieces.len(),
            pieces == entries@.map_values(|p: Vec<char>| p@),
            pieces == split_on(raw_env@, ','),
            field(raw@, "environment"@) == Some(Some(raw_env@)),
            !env_panics(pieces.take(i as int)),
            env_fold(pieces.take(i as int)) is Ok,
        decreases entries.len() - i,
    {
        let entry = &entries[i];
        let ghost e = pieces[i as int];
        assert(entry@ == e);
        assert(pieces.take(i + 1).drop_last() == pieces.take(i as int));
        assert(pieces.take(i + 1).last() == e);
        match find_char(entry, '=') {
            Some(p) => {
                let n = entry.len();
                let value_part = sub_chars(entry, p + 1, n);
                assert(value_part@ == e.skip(p + 1));
                let vt = value_part;
                if vt.len() == 1 && vt[0] == '"' {
                    proof {
                        assert(e.skip(p + 1) =~= seq!['"']);
                        lemma_env_panics_prefix(pieces, i + 1);
                    }
                    return true;
                }
                assert(e.skip(p + 1) != seq!['"']) by {
                    if vt.len() == 1 {
                        assert(e.skip(p + 1)[0] == vt@[0]);
                    }
                }
            },
            None => {
                proof {
                    assert(env_fold(pieces.take(i + 1)) is Err);
                    lemma_env_no_panic_after_err(pieces, i + 1);
                }
                return false;
            },
        }
        i = i + 1;
    }
    assert(pieces.take(entries@.len() as int) == pieces);
    false
}

proof fn lemma_env_no_panic_after_err(entries: Seq<Seq<char>>, k: int)
    requires
        0 <= k <= entries.len(),
        !env_panics(entries.take(k)),
        env_fold(entries.take(k)) is Err,
    ensures
        !env_panics(entries),
    decreases entries.len(),
{
    if k == entries.len() {
        assert(entries.take(k) == entries);
    } else {
        assert(entries.drop_last().take(k) == entries.take(k));
        lemma_env_no_panic_after_err(entries.drop_last(), k);
        lemma_env_fold_err_prefix(entries.drop_last(), k);
    }
}

/// Whether parsing the section would slice a lone double quote in its
/// environment: callers check this before [`parse_job`].
pub fn parse_job_panics(raw: &RawConfig) -> (b: bool)
    ensures
        b == spec_parse_job_panics(raw@),
{
    let before = parse_num_procs(raw).is_ok() && _parse_command(raw).is_ok() && _parse_arguments(
        raw,
    ).is_ok() && parse_autostart(raw).is_ok() && parse_autorestart(raw).is_ok()
        && _parse_exitcodes(raw).is_ok() && _parse_start_secs(raw).is_ok()
        && _parse_start_retries(raw).is_ok() && _parse_stop_signal(raw).is_ok()
        && _parse_stop_wait_seconds(raw).is_ok() && _parse_stderr_file(raw).is_ok()
        && _parse_stdout_file(raw).is_ok();
    before && environment_panics(raw)
}

// ---------------------------------------------------------------------------
// Client input
// ---------------------------------------------------------------------------

/// The command: the first word of the client's input.
pub open spec fn spec_cmd_from_client(raw: Seq<char>) -> core::result::Result<Seq<char>, ErrorV> {
    let w = words(raw);
    if w.len() > 0 {
        Ok(w[0])
    } else {
        Err(ErrorV::ParseClientInput("Command is not set..."@))
    }
}

/// The job: the second word of the client's input, up to its last `:`.
pub open spec fn spec_arg_from_client(raw: Seq<char>) -> core::result::Result<Seq<char>, ErrorV> {
    let w = words(raw);
    if w.len() > 1 {
        match last_index(w[1], ':') {
            Some(p) => Ok(w[1].take(p)),
            None => Ok(w[1]),
        }
    } else {
        Err(ErrorV::ParseClientInput("Job is not set..."@))
    }
}

/// The process number: what follows the last `:` of the second word, if any.
pub open spec fn spec_target_from_client(raw: Seq<char>) -> core::result::Result<Option<usize>, ErrorV> {
    let w = words(raw);
    if w.len() > 1 {
        match last_index(w[1], ':') {
            Some(p) => match parse_unsigned(w[1].skip(p + 1), 10, usize::MAX as nat) {
                Some(n) => Ok(Some(n as usize)),
                None => Err(ErrorV::ParseClientInput("Wrong format for the number of process..."@)),
            },
            None => Ok(None),
        }
    } else {
        Ok(None)
    }
}

/// The first word of the client's input.
pub fn _parse_cmd_from_client_input(raw: &String) -> (r: Result<String>)
    ensures
        res_view(r) == spec_cmd_from_client(raw@),
{
    let w = split_whitespace(raw.as_str());
    if w.len() > 0 {
        assert(strings_view(w@)[0] == w@[0]@);
        Ok(w[0].clone())
    } else {
        Err(Error::ParseClientInput(String::from_str("Command is not set...")))
    }
}

/// The second word of the client's input, without what follows its last `:`.
pub fn _parse_arg_from_client_input(raw: &String) -> (r: Result<String>)
    ensures
        res_view(r) == spec_arg_from_client(raw@),
{
    let w = split_whitespace(raw.as_str());
    if w.len() > 1 {
        assert(strings_view(w@)[1] == w@[1]@);
        let cs = chars_of(w[1].as_str());
        match rfind_char(&cs, ':') {
            Some(p) => Ok(string_of(&cs, 0, p)),
            None => Ok(w[1].clone()),
        }
    } else {
        Err(Error::ParseClientInput(String::from_str("Job is not set...")))
    }
}

/// The number after the last `:` of the second word of the client's input.
pub fn _parse_target_process_number_from_client_input(raw: &String) -> (r: Result<Option<usize>>)
    ensures
        res_view(r) == spec_target_from_client(raw@),
{
    let w = split_whitespace(raw.as_str());
    if w.len() > 1 {
        assert(strings_view(w@)[1] == w@[1]@);
        let cs = chars_of(w[1].as_str());
        if let Some(p) = rfind_char(&cs, ':') {
            let n = cs.len();
            assert(p < n);
            let digits = sub_chars(&cs, p + 1, n);
            assert(digits@ == cs@.skip(p + 1));
            match parse_unsigned_chars(&digits, 10, usize::MAX as u64) {
                Some(n) => {
                    return Ok(Some(n as usize));
                },
                None => {
                    return Err(
                        Error::ParseClientInput(String::from_str("Wrong format for the number of process...")),
                    );
                },
            }
        }
    }
    Ok(None)
}

/// The command, the job and the process number that the client asks for;
/// the job must be in the configuration.
pub open spec fn spec_parse_client_input(jobs: Map<Seq<char>, JobView>, raw: Seq<char>) -> core::result::Result<
    (Seq<char>, Seq<char>, Option<usize>),
    ErrorV,
> {
    match spec_cmd_from_client(raw) {
        Err(e) => Err(e),
        Ok(cmd) => match spec_arg_from_client(raw) {
            Err(e) => Err(e),
            Ok(arg) => match spec_target_from_client(raw) {
                Err(e) => Err(e),
                Ok(target) => if jobs.contains_key(arg) {
                    Ok((cmd, arg, target))
                } else {
                    Err(ErrorV::ParseClientInput("Job not found..."@))
                },
            },
        },
    }
}

/// Reads the command, the job and the process number of the client's input.
pub fn parse_client_input(config: &mut Config, raw: &String) -> (r: Result<(String, String, Option<usize>)>)
    ensures
        *final(config) == *old(config),
        res_view(r) == spec_parse_client_input(old(config)@, raw@),
{
    let client_cmd = match _parse_cmd_from_client_input(raw) {
        Ok(v) => v,
        Err(e) => return Err(e),
    };
    let client_arg = match _parse_arg_from_client_input(raw) {
        Ok(v) => v,
        Err(e) => return Err(e),
    };
    let client_process = match _parse_target_process_number_from_client_input(raw) {
        Ok(v) => v,
        Err(e) => return Err(e),
    };
    if config.contains_key(&client_arg) {
        Ok((client_cmd, client_arg, client_process))
    } else {
        Err(Error::ParseClientInput(String::from_str("Job not found...")))
    }
}

} // verus!
