//! Properties of the configuration reader, the reload and the client
//! commands that hold for every input.
use crate::config::{
    change_steps, content_panics, load_sections, removal_steps, spec_client_request,
    spec_config_job, spec_parse_content, ClientRequestView, JobCommand, ReloadStepView,
};
use crate::error::{error_text, ErrorV};
use crate::job::{default_job, JobView};
use crate::parse::{
    codes_fold, env_entry, env_fold, env_panics, field, lone_quote, spec_arg_from_client,
    spec_cmd_from_client, spec_command, spec_environment, spec_environment_panics,
    spec_exitcodes, spec_one_word, spec_parse_client_input, spec_parse_job, spec_stop_signal,
    spec_target_from_client, spec_umask, umask_shape, unquote, RawView,
};
use crate::text::{
    all_digits, ascii_lower, digit_value, digits_value, first_index, has_ws, is_digit, is_ws,
    last_index, lemma_first_index_found, lemma_last_index_found, lemma_last_index_none,
    lemma_split_on_len, lemma_split_on_prefix, lemma_trim_end_take, lemma_trim_start_skip,
    lemma_words_run, lower_equals, no_ws, parse_unsigned, split_on, trim, trim_end, trim_start,
    words,
};
use vstd::prelude::*;

verus! {

proof fn lemma_load_dom(m: Map<Seq<char>, JobView>, secs: Seq<(Seq<char>, RawView)>, k: Seq<char>)
    requires
        load_sections(m, secs).1 is None,
    ensures
        load_sections(m, secs).0.contains_key(k) <==> (m.contains_key(k) || exists|i: int|
            0 <= i < secs.len() && secs[i].0 == k),
    decreases secs.len(),
{
    if secs.len() > 0 {
        let prev = secs.drop_last();
        lemma_load_dom(m, prev, k);
        if exists|i: int| 0 <= i < secs.len() && secs[i].0 == k {
            let i = choose|i: int| 0 <= i < secs.len() && secs[i].0 == k;
            if i < secs.len() - 1 {
                assert(prev[i].0 == k);
            }
        }
        if exists|i: int| 0 <= i < prev.len() && prev[i].0 == k {
            let i = choose|i: int| 0 <= i < prev.len() && prev[i].0 == k;
            assert(secs[i].0 == k);
        }
    }
}

proof fn lemma_load_untouched(
    m: Map<Seq<char>, JobView>,
    secs: Seq<(Seq<char>, RawView)>,
    k: Seq<char>,
)
    requires
        load_sections(m, secs).1 is None,
        forall|i: int| 0 <= i < secs.len() ==> secs[i].0 != k,
    ensures
        load_sections(m, secs).0.contains_key(k) == m.contains_key(k),
        load_sections(m, secs).0[k] == m[k],
    decreases secs.len(),
{
    if secs.len() > 0 {
        let prev = secs.drop_last();
        assert forall|i: int| 0 <= i < prev.len() implies prev[i].0 != k by {
            assert(prev[i] == secs[i]);
        }
        lemma_load_untouched(m, prev, k);
        assert(secs[secs.len() - 1].0 != k);
    }
}

proof fn lemma_load_last(
    m: Map<Seq<char>, JobView>,
    secs: Seq<(Seq<char>, RawView)>,
    k: Seq<char>,
    i: int,
)
    requires
        load_sections(m, secs).1 is None,
        0 <= i < secs.len(),
        secs[i].0 == k,
        forall|j: int| i < j < secs.len() ==> secs[j].0 != k,
    ensures
        load_sections(m, secs).0.contains_key(k),
        spec_config_job(secs[i].1) == Ok::<JobView, ErrorV>(load_sections(m, secs).0[k]),
    decreases secs.len(),
{
    let prev = secs.drop_last();
    if i == secs.len() - 1 {
    } else {
        assert(prev[i] == secs[i]);
        assert forall|j: int| i < j < prev.len() implies prev[j].0 != k by {
            assert(prev[j] == secs[j]);
        }
        lemma_load_last(m, prev, k, i);
        assert(secs[secs.len() - 1].0 != k);
    }
}

proof fn lemma_last_occurrence(secs: Seq<(Seq<char>, RawView)>, k: Seq<char>) -> (i: int)
    requires
        exists|i: int| 0 <= i < secs.len() && secs[i].0 == k,
    ensures
        0 <= i < secs.len(),
        secs[i].0 == k,
        forall|j: int| i < j < secs.len() ==> secs[j].0 != k,
    decreases secs.len(),
{
    if secs.last().0 == k {
        (secs.len() - 1) as int
    } else {
        let prev = secs.drop_last();
        let w = choose|i: int| 0 <= i < secs.len() && secs[i].0 == k;
        assert(prev[w].0 == k);
        let i = lemma_last_occurrence(prev, k);
        assert(secs[i] == prev[i]);
        assert forall|j: int| i < j < secs.len() implies secs[j].0 != k by {
            if j < prev.len() {
                assert(prev[j] == secs[j]);
            }
        }
        i
    }
}

/// A configuration that reads without error holds at least one job and no
/// job named `default`.
pub proof fn law_loaded_config_has_jobs(
    m: Map<Seq<char>, JobView>,
    secs: Seq<(Seq<char>, RawView)>,
)
    requires
        spec_parse_content(m, secs).1 is Ok,
    ensures
        spec_parse_content(m, secs).0 != Map::<Seq<char>, JobView>::empty(),
        !spec_parse_content(m, secs).0.contains_key("default"@),
{
}

/// Reading a configuration into an empty set of jobs without error gives
/// exactly one job per section name other than `default`: the job that the
/// last section of that name describes.
pub proof fn law_loaded_jobs_are_their_sections(secs: Seq<(Seq<char>, RawView)>, k: Seq<char>)
    requires
        spec_parse_content(Map::empty(), secs).1 is Ok,
    ensures
        spec_parse_content(Map::empty(), secs).0.contains_key(k) <==> (k != "default"@
            && exists|i: int| 0 <= i < secs.len() && secs[i].0 == k),
        spec_parse_content(Map::empty(), secs).0.contains_key(k) ==> exists|i: int|
            {
                &&& 0 <= i < secs.len()
                &&& secs[i].0 == k
                &&& (forall|j: int| i < j < secs.len() ==> secs[j].0 != k)
                &&& spec_config_job(secs[i].1) == Ok::<JobView, ErrorV>(
                    spec_parse_content(Map::empty(), secs).0[k],
                )
            },
{
    let m = Map::<Seq<char>, JobView>::empty();
    lemma_load_dom(m, secs, k);
    if exists|i: int| 0 <= i < secs.len() && secs[i].0 == k {
        let i = lemma_last_occurrence(secs, k);
        lemma_load_last(m, secs, k, i);
    }
}

/// When a section does not parse, the error names the first such section
/// and carries the text of its error; every section before it parses.
pub proof fn law_first_bad_section_is_reported(
    m: Map<Seq<char>, JobView>,
    secs: Seq<(Seq<char>, RawView)>,
)
    requires
        load_sections(m, secs).1 is Some,
    ensures
        exists|i: int|
            {
                &&& 0 <= i < secs.len()
                &&& spec_config_job(secs[i].1) is Err
                &&& (forall|j: int| 0 <= j < i ==> (#[trigger] spec_config_job(secs[j].1)) is Ok)
                &&& load_sections(m, secs).1 == Some(
                    ErrorV::CantParseEntry {
                        entry_name: secs[i].0,
                        e: error_text(spec_config_job(secs[i].1)->Err_0),
                    },
                )
            },
    decreases secs.len(),
{
    let prev = secs.drop_last();
    if load_sections(m, prev).1 is Some {
        law_first_bad_section_is_reported(m, prev);
        let i = choose|i: int|
            {
                &&& 0 <= i < prev.len()
                &&& spec_config_job(prev[i].1) is Err
                &&& (forall|j: int| 0 <= j < i ==> (#[trigger] spec_config_job(prev[j].1)) is Ok)
                &&& load_sections(m, prev).1 == Some(
                    ErrorV::CantParseEntry {
                        entry_name: prev[i].0,
                        e: error_text(spec_config_job(prev[i].1)->Err_0),
                    },
                )
            };
        assert(secs[i] == prev[i]);
        assert forall|j: int| 0 <= j < i implies (#[trigger] spec_config_job(secs[j].1)) is Ok by {
            assert(secs[j] == prev[j]);
        }
    } else {
        let n = secs.len() - 1;
        crate::config::lemma_load_sections_ok(m, prev);
        assert forall|j: int| 0 <= j < n implies (#[trigger] spec_config_job(secs[j].1)) is Ok by {
            assert(secs[j] == prev[j]);
            assert(spec_config_job(prev[j].1) is Ok);
        }
    }
}

/// A reload stops exactly the former jobs that the new configuration drops.
pub proof fn law_reload_stops_dropped_jobs(
    previous: Seq<(Seq<char>, JobView)>,
    now: Map<Seq<char>, JobView>,
    k: Seq<char>,
)
    ensures
        removal_steps(previous, now).contains(ReloadStepView::StopPrevious(k)) <==> (!now.contains_key(k)
            && exists|i: int| 0 <= i < previous.len() && previous[i].0 == k),
        forall|s: ReloadStepView| #[trigger]
            removal_steps(previous, now).contains(s) ==> s is StopPrevious,
    decreases previous.len(),
{
    if previous.len() > 0 {
        let prev = previous.drop_last();
        law_reload_stops_dropped_jobs(prev, now, k);
        let last = previous.last();
        let tail = if now.contains_key(last.0) {
            Seq::<ReloadStepView>::empty()
        } else {
            seq![ReloadStepView::StopPrevious(last.0)]
        };
        let all = removal_steps(previous, now);
        assert(all == removal_steps(prev, now) + tail);
        if all.contains(ReloadStepView::StopPrevious(k)) {
            let x = choose|x: int| 0 <= x < all.len() && all[x] == ReloadStepView::StopPrevious(k);
            if x < removal_steps(prev, now).len() {
                assert(removal_steps(prev, now)[x] == all[x]);
                let i = choose|i: int| 0 <= i < prev.len() && prev[i].0 == k;
                assert(previous[i].0 == k);
            } else {
                assert(tail[x - removal_steps(prev, now).len()] == all[x]);
                assert(previous[previous.len() - 1].0 == k);
            }
        }
        if !now.contains_key(k) && exists|i: int| 0 <= i < previous.len() && previous[i].0 == k {
            let i = choose|i: int| 0 <= i < previous.len() && previous[i].0 == k;
            if i < previous.len() - 1 {
                assert(prev[i].0 == k);
                let x = choose|x: int|
                    0 <= x < removal_steps(prev, now).len() && removal_steps(prev, now)[x]
                        == ReloadStepView::StopPrevious(k);
                assert(all[x] == removal_steps(prev, now)[x]);
            } else {
                assert(all[removal_steps(prev, now).len() as int] == ReloadStepView::StopPrevious(
                    k,
                ));
            }
        }
        assert forall|s: ReloadStepView| #[trigger] all.contains(s) implies s is StopPrevious by {
            let x = choose|x: int| 0 <= x < all.len() && all[x] == s;
            if x < removal_steps(prev, now).len() {
                assert(removal_steps(prev, now)[x] == all[x]);
                assert(removal_steps(prev, now).contains(s));
            } else {
                assert(tail[x - removal_steps(prev, now).len()] == all[x]);
            }
        }
    }
}

/// A reload starts a job with its former settings exactly where a job of that
/// name existed before with other settings.
pub proof fn law_reload_restarts_changed_jobs(
    jobs: Seq<(Seq<char>, JobView)>,
    previous: Map<Seq<char>, JobView>,
    k: Seq<char>,
)
    ensures
        change_steps(jobs, previous).contains(ReloadStepView::StartPrevious(k)) <==> (
        previous.contains_key(k) && exists|i: int|
            0 <= i < jobs.len() && jobs[i].0 == k && jobs[i].1 != previous[k]),
    decreases jobs.len(),
{
    if jobs.len() > 0 {
        let prev = jobs.drop_last();
        law_reload_restarts_changed_jobs(prev, previous, k);
        let (name, j) = jobs.last();
        let tail = if previous.contains_key(name) {
            if previous[name] != j {
                seq![ReloadStepView::StartPrevious(name)]
            } else {
                Seq::<ReloadStepView>::empty()
            }
        } else if j.auto_start {
            seq![ReloadStepView::Start(name)]
        } else {
            Seq::<ReloadStepView>::empty()
        };
        let all = change_steps(jobs, previous);
        let head = change_steps(prev, previous);
        assert(all == head + tail);
        let target = ReloadStepView::StartPrevious(k);
        if all.contains(target) {
            let x = choose|x: int| 0 <= x < all.len() && all[x] == target;
            if x < head.len() {
                assert(head[x] == all[x]);
                let i = choose|i: int| 0 <= i < prev.len() && prev[i].0 == k && prev[i].1 != previous[k];
                assert(jobs[i] == prev[i]);
            } else {
                assert(tail[x - head.len()] == all[x]);
                assert(jobs[jobs.len() - 1] == (name, j));
            }
        }
        if previous.contains_key(k) && exists|i: int|
            0 <= i < jobs.len() && jobs[i].0 == k && jobs[i].1 != previous[k] {
            let i = choose|i: int| 0 <= i < jobs.len() && jobs[i].0 == k && jobs[i].1 != previous[k];
            if i < jobs.len() - 1 {
                assert(prev[i] == jobs[i]);
                let x = choose|x: int| 0 <= x < head.len() && head[x] == target;
                assert(all[x] == head[x]);
            } else {
                assert(all[head.len() as int] == target);
            }
        }
    }
}

/// A command that the client input gets through names a configured job.
pub proof fn law_accepted_request_names_a_job(jobs: Map<Seq<char>, JobView>, raw: Seq<char>)
    ensures
        spec_parse_client_input(jobs, raw) is Ok ==> jobs.contains_key(
            spec_parse_client_input(jobs, raw)->Ok_0.1,
        ),
        spec_client_request(jobs, raw) matches ClientRequestView::Run { job_name, .. }
            ==> jobs.contains_key(job_name),
{
}

/// Where the client names a process, the second word of the input is the
/// job, a `:`, and the process number written in decimal.
pub proof fn law_target_follows_last_colon(raw: Seq<char>)
    requires
        spec_target_from_client(raw) matches Ok(Some(_)),
    ensures
        spec_arg_from_client(raw) is Ok,
        exists|digits: Seq<char>|
            {
                &&& words(raw)[1] == spec_arg_from_client(raw)->Ok_0 + seq![':'] + digits
                &&& parse_unsigned(digits, 10, usize::MAX as nat) == Some(
                    spec_target_from_client(raw)->Ok_0->Some_0 as nat,
                )
            },
{
    let w = words(raw)[1];
    let p = last_index(w, ':')->Some_0;
    lemma_last_index_bounds(w, ':');
    let digits = w.skip(p + 1);
    assert(w == w.take(p) + seq![':'] + digits);
}

proof fn lemma_last_index_bounds(s: Seq<char>, c: char)
    ensures
        last_index(s, c) matches Some(p) ==> 0 <= p < s.len() && s[p] == c,
    decreases s.len(),
{
    if s.len() > 0 && s.last() != c {
        lemma_last_index_bounds(s.drop_last(), c);
    }
}

proof fn lemma_lower_equals_lowered(s: Seq<char>, w: Seq<char>)
    ensures
        lower_equals(s, w) <==> s.map_values(|c: char| ascii_lower(c)) == w,
{
    let l = s.map_values(|c: char| ascii_lower(c));
    if lower_equals(s, w) {
        assert(l =~= w);
    }
    if l == w {
        assert forall|i: int| 0 <= i < s.len() implies ascii_lower(#[trigger] s[i]) == w[i] by {
            assert(l[i] == ascii_lower(s[i]));
        }
    }
}

/// The stop signal is read without regard to case: two values that agree
/// once lowered name the same signal, or are both refused.
pub proof fn law_stop_signal_ignores_case(raw1: RawView, raw2: RawView, s: Seq<char>, t: Seq<char>)
    requires
        field(raw1, "stopsignal"@) == Some(Some(s)),
        field(raw2, "stopsignal"@) == Some(Some(t)),
        s.map_values(|c: char| ascii_lower(c)) == t.map_values(|c: char| ascii_lower(c)),
    ensures
        spec_stop_signal(raw1) is Ok <==> spec_stop_signal(raw2) is Ok,
        spec_stop_signal(raw1) is Ok ==> spec_stop_signal(raw1) == spec_stop_signal(raw2),
{
    assert forall|w: Seq<char>| #[trigger] lower_equals(s, w) == lower_equals(t, w) by {
        lemma_lower_equals_lowered(s, w);
        lemma_lower_equals_lowered(t, w);
    }
}

/// A field read as one word is never empty and holds no whitespace.
pub proof fn law_one_word_fields(raw: RawView, name: Seq<char>)
    ensures
        spec_one_word(raw, name, None) matches Ok(Some(s)) ==> s.len() > 0 && !has_ws(s),
{
}

proof fn lemma_octal_three_digits(s: Seq<char>)
    requires
        s.len() == 3,
        all_digits(s, 8),
    ensures
        digits_value(s, 8) <= 511,
{
    let a = s.drop_last();
    let b = a.drop_last();
    let c = b.drop_last();
    assert(c.len() == 0);
    assert(is_digit(s[2], 8));
    assert(s[2] == s.last());
    assert(is_digit(s[1], 8));
    assert(s[1] == a.last());
    assert(is_digit(s[0], 8));
    assert(s[0] == b.last());
    assert(digits_value(c, 8) == 0);
    assert(digits_value(b, 8) <= 7);
    assert(digits_value(a, 8) <= 63);
}

/// A umask that reads is a permission mask: at most 0o777.
pub proof fn law_umask_is_a_mode(raw: RawView)
    ensures
        spec_umask(raw) matches Ok(Some(u)) ==> u <= 511,
{
    if let Ok(Some(s)) = spec_one_word(raw, "umask"@, None) {
        if umask_shape(s) && parse_unsigned(s, 8, u32::MAX as nat) is Some {
            lemma_octal_three_digits(s);
        }
    }
}

/// The decimal digits of `n`, most significant first, without leading zeros.
pub open spec fn decimal(n: nat) -> Seq<char>
    decreases n,
{
    if n < 10 {
        seq![((48 + n) as u32) as char]
    } else {
        decimal(n / 10).push(((48 + n % 10) as u32) as char)
    }
}

proof fn lemma_decimal_digits(n: nat)
    ensures
        decimal(n).len() > 0,
        all_digits(decimal(n), 10),
        digits_value(decimal(n), 10) == n,
        decimal(n)[0] != '+',
    decreases n,
{
    if n >= 10 {
        lemma_decimal_digits(n / 10);
        let d = decimal(n);
        let p = decimal(n / 10);
        assert(d.drop_last() == p);
        assert forall|i: int| 0 <= i < d.len() implies is_digit(#[trigger] d[i], 10) by {
            if i < p.len() {
                assert(d[i] == p[i]);
            }
        }
        assert(d[0] == p[0]);
        vstd::arithmetic::div_mod::lemma_fundamental_div_mod(n as int, 10);
        assert(d.last() == ((48 + n % 10) as u32) as char);
        assert((d.last() as u32) == 48 + n % 10);
        assert(digits_value(d, 10) == digits_value(p, 10) * 10 + digit_value(d.last()));
        assert(digit_value(d.last()) == n % 10);
        assert(digits_value(p, 10) == n / 10);
        assert(n == 10 * (n / 10) + n % 10);
    } else {
        let d = decimal(n);
        assert(d.drop_last() =~= Seq::<char>::empty());
        assert(digits_value(d.drop_last(), 10) == 0);
        assert((d.last() as u32) == 48 + n);
        assert(is_digit(d[0], 10));
    }
}

/// A number written in decimal reads back as itself, wherever it fits.
pub proof fn law_decimal_reads_back(n: nat, max: nat)
    requires
        n <= max,
    ensures
        parse_unsigned(decimal(n), 10, max) == Some(n),
{
    lemma_decimal_digits(n);
}

/// A section that gives only a command line describes the default job with
/// that program and its arguments: every other field takes its default.
pub proof fn law_absent_fields_take_defaults(line: Seq<char>)
    requires
        words(line).len() > 0,
    ensures
        spec_parse_job(Map::<Seq<char>, Option<Seq<char>>>::empty().insert("command"@, Some(line)))
            == Ok::<JobView, ErrorV>(
            JobView {
                command: words(line)[0],
                arguments: if words(line).len() <= 1 {
                    None
                } else {
                    Some(words(line).skip(1))
                },
                ..default_job()
            },
        ),
{
    reveal_strlit("command");
    reveal_strlit("numprocs");
    reveal_strlit("autostart");
    reveal_strlit("autorestart");
    reveal_strlit("exitcodes");
    reveal_strlit("startsecs");
    reveal_strlit("startretries");
    reveal_strlit("stopsignal");
    reveal_strlit("stopwaitsecs");
    reveal_strlit("stderr");
    reveal_strlit("stdout");
    reveal_strlit("environment");
    reveal_strlit("workdir");
    reveal_strlit("umask");
    let raw = Map::<Seq<char>, Option<Seq<char>>>::empty().insert("command"@, Some(line));
    assert("command"@[0] == 'c');
    assert("numprocs"@[0] == 'n');
    assert("autostart"@[0] == 'a');
    assert("numprocs"@ != "command"@);
    assert("autostart"@ != "command"@);
    assert("autorestart"@ != "command"@);
    assert("exitcodes"@ != "command"@);
    assert("startsecs"@ != "command"@);
    assert("startretries"@ != "command"@);
    assert("stopsignal"@ != "command"@);
    assert("stopwaitsecs"@ != "command"@);
    assert("stderr"@ != "command"@);
    assert("stdout"@ != "command"@);
    assert("environment"@ != "command"@);
    assert("workdir"@ != "command"@);
    assert("umask"@ != "command"@);
}

/// Exit codes written in decimal and separated by `, `.
pub open spec fn codes_text(codes: Seq<u8>) -> Seq<char>
    decreases codes.len(),
{
    if codes.len() <= 1 {
        if codes.len() == 0 {
            Seq::empty()
        } else {
            decimal(codes[0] as nat)
        }
    } else {
        codes_text(codes.drop_last()) + ", "@ + decimal(codes.last() as nat)
    }
}

proof fn lemma_split_on_join(a: Seq<char>, b: Seq<char>, sep: char)
    ensures
        split_on(a + seq![sep] + b, sep) == split_on(a, sep) + split_on(b, sep),
    decreases a.len(),
{
    let s = a + seq![sep] + b;
    if a.len() == 0 {
        assert(s == seq![sep] + b);
        assert(s.drop_first() == b);
    } else {
        let a1 = a.drop_first();
        assert(s.drop_first() == a1 + seq![sep] + b);
        assert(s[0] == a[0]);
        lemma_split_on_join(a1, b, sep);
        lemma_split_on_len(a1, sep);
        let rest = split_on(a1, sep) + split_on(b, sep);
        if a[0] != sep {
            assert(rest.update(0, seq![a[0]] + rest[0]) == split_on(a1, sep).update(
                0,
                seq![a[0]] + split_on(a1, sep)[0],
            ) + split_on(b, sep));
        } else {
            assert(seq![Seq::<char>::empty()] + rest == (seq![Seq::<char>::empty()] + split_on(a1, sep))
                + split_on(b, sep));
        }
    }
}

proof fn lemma_one_piece(d: Seq<char>, sep: char)
    requires
        forall|i: int| 0 <= i < d.len() ==> d[i] != sep,
    ensures
        split_on(d, sep) == seq![d],
{
    let e = Seq::<char>::empty();
    lemma_split_on_prefix(d, e, sep);
    assert(d + e == d);
    assert(split_on(e, sep) == seq![e]);
}

proof fn lemma_decimal_piece(n: nat, lead: Seq<char>)
    requires
        lead.len() <= 1,
        lead.len() == 1 ==> lead[0] == ' ',
    ensures
        split_on(lead + decimal(n), ',') == seq![lead + decimal(n)],
        trim(lead + decimal(n)) == decimal(n),
        parse_unsigned(trim(lead + decimal(n)), 10, 255) == (if n <= 255 {
            Some(n)
        } else {
            None
        }),
{
    lemma_decimal_digits(n);
    let d = decimal(n);
    let t = lead + d;
    assert forall|i: int| 0 <= i < t.len() implies t[i] != ',' by {
        if i >= lead.len() {
            assert(t[i] == d[i - lead.len()]);
            assert(is_digit(d[i - lead.len()], 10));
        }
    }
    lemma_one_piece(t, ',');
    assert forall|i: int| 0 <= i < lead.len() implies is_ws(#[trigger] t[i]) by {
        assert(t[i] == ' ');
    }
    assert(is_digit(d[0], 10));
    assert(t[lead.len() as int] == d[0]);
    lemma_trim_start_skip(t, lead.len() as int);
    assert(t.skip(lead.len() as int) == d);
    assert(is_digit(d[d.len() - 1], 10));
    lemma_trim_end_take(d, d.len() as int);
    assert(d.take(d.len() as int) == d);
    if n <= 255 {
        assert(parse_unsigned(d, 10, 255) == Some(n));
    }
    law_decimal_reads_back(n, n);
}

proof fn lemma_codes_text_pieces(codes: Seq<u8>, whole: Seq<char>)
    requires
        codes.len() > 0,
    ensures
        codes_fold(split_on(codes_text(codes), ','), whole) == Ok::<Seq<u8>, ErrorV>(codes),
    decreases codes.len(),
{
    let e = Seq::<char>::empty();
    if codes.len() == 1 {
        lemma_decimal_piece(codes[0] as nat, e);
        assert(e + decimal(codes[0] as nat) == decimal(codes[0] as nat));
        let parts = seq![decimal(codes[0] as nat)];
        assert(codes_text(codes) == decimal(codes[0] as nat));
        assert(split_on(codes_text(codes), ',') == parts);
        assert(parts.drop_last() == Seq::<Seq<char>>::empty());
        assert(codes_fold(parts.drop_last(), whole) == Ok::<Seq<u8>, ErrorV>(Seq::empty()));
        assert(parse_unsigned(trim(parts.last()), 10, 255) == Some(codes[0] as nat));
        assert(Seq::<u8>::empty().push(codes[0]) == codes);
    } else {
        let init = codes.drop_last();
        let last = codes.last();
        let head = codes_text(init);
        let tail = " "@ + decimal(last as nat);
        reveal_strlit(", ");
        reveal_strlit(" ");
        assert(codes_text(codes) == head + seq![','] + tail);
        lemma_split_on_join(head, tail, ',');
        lemma_decimal_piece(last as nat, " "@);
        lemma_codes_text_pieces(init, whole);
        let parts = split_on(head, ',') + seq![tail];
        assert(split_on(codes_text(codes), ',') == parts);
        assert(parts.drop_last() == split_on(head, ','));
        assert(parts.last() == tail);
        assert(parse_unsigned(trim(tail), 10, 255) == Some(last as nat));
        assert(init.push(last) == codes);
    }
}

/// Exit codes written as the configuration documents them, decimal numbers
/// separated by `, `, read back as those codes in that order.
pub proof fn law_exit_codes_read_back(raw: RawView, codes: Seq<u8>)
    requires
        codes.len() > 0,
        field(raw, "exitcodes"@) == Some(Some(codes_text(codes))),
    ensures
        spec_exitcodes(raw) == Ok::<Seq<u8>, ErrorV>(codes),
{
    lemma_codes_text_pieces(codes, codes_text(codes));
}

proof fn lemma_words_empty(s: Seq<char>)
    ensures
        words(s).len() == 0 <==> forall|i: int| 0 <= i < s.len() ==> is_ws(#[trigger] s[i]),
    decreases s.len(),
{
    if s.len() > 0 {
        let t = s.drop_first();
        lemma_words_empty(t);
        if is_ws(s[0]) {
            if forall|i: int| 0 <= i < t.len() ==> is_ws(#[trigger] t[i]) {
                assert forall|i: int| 0 <= i < s.len() implies is_ws(#[trigger] s[i]) by {
                    if i > 0 {
                        assert(s[i] == t[i - 1]);
                    }
                }
            } else {
                let k = choose|k: int| 0 <= k < t.len() && !is_ws(#[trigger] t[k]);
                assert(s[k + 1] == t[k]);
            }
        } else {
            if s.len() > 1 && !is_ws(s[1]) {
                assert(t[0] == s[1]);
            }
        }
    }
}

proof fn lemma_trim_start_empty(s: Seq<char>)
    ensures
        trim_start(s).len() == 0 <==> forall|i: int| 0 <= i < s.len() ==> is_ws(#[trigger] s[i]),
        trim_start(s).len() > 0 ==> !is_ws(trim_start(s)[0]),
    decreases s.len(),
{
    if s.len() > 0 && is_ws(s[0]) {
        let t = s.drop_first();
        lemma_trim_start_empty(t);
        if forall|i: int| 0 <= i < t.len() ==> is_ws(#[trigger] t[i]) {
            assert forall|i: int| 0 <= i < s.len() implies is_ws(#[trigger] s[i]) by {
                if i > 0 {
                    assert(s[i] == t[i - 1]);
                }
            }
        } else {
            let k = choose|k: int| 0 <= k < t.len() && !is_ws(#[trigger] t[k]);
            assert(s[k + 1] == t[k]);
        }
    }
}

proof fn lemma_trim_end_keeps_first(t: Seq<char>)
    requires
        t.len() > 0,
        !is_ws(t[0]),
    ensures
        trim_end(t).len() > 0,
    decreases t.len(),
{
    if is_ws(t.last()) {
        assert(t.len() > 1);
        assert(t.drop_last()[0] == t[0]);
        lemma_trim_end_keeps_first(t.drop_last());
    }
}

proof fn lemma_trim_empty(s: Seq<char>)
    ensures
        trim(s).len() == 0 <==> forall|i: int| 0 <= i < s.len() ==> is_ws(#[trigger] s[i]),
{
    lemma_trim_start_empty(s);
    if trim_start(s).len() > 0 {
        lemma_trim_end_keeps_first(trim_start(s));
    }
}

/// The program of a job is refused as empty where `command` is written
/// with an empty value, is not set where `command` is absent, has no value
/// or holds only whitespace, and is otherwise the first word of its value.
pub proof fn law_command_is_set_when_it_has_a_word(raw: RawView)
    ensures
        match field(raw, "command"@) {
            Some(Some(v)) => if v.len() == 0 {
                spec_command(raw) == Err::<Seq<char>, ErrorV>(
                    ErrorV::FieldBadFormat { field_name: "command"@, msg: "Field is empty"@ },
                )
            } else if trim(v).len() == 0 {
                spec_command(raw) == Err::<Seq<char>, ErrorV>(ErrorV::FieldCommandIsNotSet)
            } else {
                spec_command(raw) == Ok::<Seq<char>, ErrorV>(words(v)[0])
            },
            _ => spec_command(raw) == Err::<Seq<char>, ErrorV>(ErrorV::FieldCommandIsNotSet),
        },
{
    if let Some(Some(v)) = field(raw, "command"@) {
        lemma_words_empty(v);
        lemma_trim_empty(v);
        if v.len() == 0 {
            assert(v =~= Seq::<char>::empty());
        } else {
            assert(v != Seq::<char>::empty());
        }
    } else {
        assert(words(Seq::<char>::empty()) == Seq::<Seq<char>>::empty());
    }
}

/// A client line: a command, a space, a job, `:` and a process number.
pub open spec fn client_line(cmd: Seq<char>, job: Seq<char>, n: nat) -> Seq<char> {
    cmd + seq![' '] + job + seq![':'] + decimal(n)
}

/// A command, a job and a process number written as a client line read
/// back as themselves; the job may itself hold `:`.
pub proof fn law_client_line_reads_back(cmd: Seq<char>, job: Seq<char>, n: usize)
    requires
        cmd.len() > 0,
        no_ws(cmd),
        no_ws(job),
    ensures
        spec_cmd_from_client(client_line(cmd, job, n as nat)) == Ok::<Seq<char>, ErrorV>(cmd),
        spec_arg_from_client(client_line(cmd, job, n as nat)) == Ok::<Seq<char>, ErrorV>(job),
        spec_target_from_client(client_line(cmd, job, n as nat)) == Ok::<Option<usize>, ErrorV>(
            Some(n),
        ),
{
    let d = decimal(n as nat);
    lemma_decimal_digits(n as nat);
    let w2 = job + seq![':'] + d;
    let line = client_line(cmd, job, n as nat);
    assert(line == cmd + (seq![' '] + w2));
    assert(no_ws(w2)) by {
        assert forall|i: int| 0 <= i < w2.len() implies !is_ws(#[trigger] w2[i]) by {
            if i < job.len() {
                assert(w2[i] == job[i]);
            } else if i > job.len() {
                assert(w2[i] == d[i - job.len() - 1]);
                assert(is_digit(d[i - job.len() - 1], 10));
            }
        }
    }
    let r = seq![' '] + w2;
    lemma_words_run(cmd, r);
    assert(r.drop_first() == w2);
    assert(words(r) == words(w2));
    lemma_words_run(w2, Seq::<char>::empty());
    assert(w2 + Seq::<char>::empty() == w2);
    assert(words(Seq::<char>::empty()) == Seq::<Seq<char>>::empty());
    assert(words(line) == seq![cmd, w2]);
    let p = job.len() as int;
    assert forall|i: int| p < i < w2.len() implies w2[i] != ':' by {
        assert(w2[i] == d[i - p - 1]);
        assert(is_digit(d[i - p - 1], 10));
    }
    lemma_last_index_found(w2, ':', p);
    assert(w2.take(p) == job);
    assert(w2.skip(p + 1) == d);
    law_decimal_reads_back(n as nat, usize::MAX as nat);
}

/// The characters that separate words: the Unicode `White_Space` set,
/// written out character by character.
pub open spec fn separator(c: char) -> bool {
    ||| c == '\t'
    ||| c == '\n'
    ||| c == '\u{0B}'
    ||| c == '\u{0C}'
    ||| c == '\r'
    ||| c == ' '
    ||| c == '\u{85}'
    ||| c == '\u{A0}'
    ||| c == '\u{1680}'
    ||| ('\u{2000}' <= c && c <= '\u{200A}')
    ||| c == '\u{2028}'
    ||| c == '\u{2029}'
    ||| c == '\u{202F}'
    ||| c == '\u{205F}'
    ||| c == '\u{3000}'
}

proof fn lemma_separator_is_ws(c: char)
    ensures
        separator(c) <==> is_ws(c),
{
}

proof fn lemma_two_words(a: Seq<char>, c: char, b: Seq<char>)
    requires
        a.len() > 0,
        b.len() > 0,
        no_ws(a),
        no_ws(b),
        is_ws(c),
    ensures
        words(a + seq![c] + b) == seq![a, b],
{
    let r = seq![c] + b;
    assert(a + seq![c] + b == a + r);
    lemma_words_run(a, r);
    assert(r.drop_first() == b);
    lemma_words_run(b, Seq::<char>::empty());
    assert(b + Seq::<char>::empty() == b);
    assert(words(Seq::<char>::empty()) == Seq::<Seq<char>>::empty());
}

/// Every `White_Space` character, carriage return and the other ASCII
/// controls included, separates two words; every other character joins them.
pub proof fn law_words_split_on_white_space(a: Seq<char>, c: char, b: Seq<char>)
    requires
        a.len() > 0,
        b.len() > 0,
        forall|i: int| 0 <= i < a.len() ==> !separator(#[trigger] a[i]),
        forall|i: int| 0 <= i < b.len() ==> !separator(#[trigger] b[i]),
    ensures
        separator(c) ==> words(a + seq![c] + b) == seq![a, b],
        !separator(c) ==> words(a + seq![c] + b) == seq![a + seq![c] + b],
{
    lemma_separator_is_ws(c);
    assert forall|i: int| 0 <= i < a.len() implies !is_ws(#[trigger] a[i]) by {
        lemma_separator_is_ws(a[i]);
    }
    assert forall|i: int| 0 <= i < b.len() implies !is_ws(#[trigger] b[i]) by {
        lemma_separator_is_ws(b[i]);
    }
    if separator(c) {
        lemma_two_words(a, c, b);
    } else {
        let w = a + seq![c] + b;
        assert forall|i: int| 0 <= i < w.len() implies !is_ws(#[trigger] w[i]) by {
            if i < a.len() {
                assert(w[i] == a[i]);
            } else if i > a.len() {
                assert(w[i] == b[i - a.len() - 1]);
            }
        }
        lemma_words_run(w, Seq::<char>::empty());
        assert(w + Seq::<char>::empty() == w);
        assert(words(Seq::<char>::empty()) == Seq::<Seq<char>>::empty());
    }
}

/// A client line `command job` (the job without `:`), naming a configured
/// job: each command word asks for the job command of the same name, for
/// all of the job's processes.
pub proof fn law_command_word_names_the_job_command(
    jobs: Map<Seq<char>, JobView>,
    cmd: Seq<char>,
    job: Seq<char>,
)
    requires
        cmd.len() > 0,
        job.len() > 0,
        no_ws(cmd),
        no_ws(job),
        forall|i: int| 0 <= i < job.len() ==> job[i] != ':',
        jobs.contains_key(job),
    ensures
        cmd == "start"@ ==> spec_client_request(jobs, cmd + seq![' '] + job)
            == (ClientRequestView::Run { command: JobCommand::Start, job_name: job, target: None }),
        cmd == "stop"@ ==> spec_client_request(jobs, cmd + seq![' '] + job)
            == (ClientRequestView::Run { command: JobCommand::Stop, job_name: job, target: None }),
        cmd == "restart"@ ==> spec_client_request(jobs, cmd + seq![' '] + job)
            == (ClientRequestView::Run { command: JobCommand::Restart, job_name: job, target: None }),
        cmd == "status"@ ==> spec_client_request(jobs, cmd + seq![' '] + job)
            == (ClientRequestView::Run { command: JobCommand::Status, job_name: job, target: None }),
{
    let line = cmd + seq![' '] + job;
    lemma_two_words(cmd, ' ', job);
    lemma_last_index_none(job, ':');
    // The line has no whitespace at either end, and holds a space that
    // `status` does not.
    assert(!is_ws(line[0]));
    assert(line[0] == cmd[0]);
    assert(line[line.len() - 1] == job[job.len() - 1]);
    lemma_trim_start_skip(line, 0);
    assert(line.skip(0) == line);
    lemma_trim_end_take(line, line.len() as int);
    assert(line.take(line.len() as int) == line);
    reveal_strlit("status");
    reveal_strlit("start");
    reveal_strlit("stop");
    reveal_strlit("restart");
    assert("stop"@[2] != "start"@[2]);
    assert("restart"@.len() != "start"@.len() && "restart"@.len() != "stop"@.len());
    assert("status"@ != "start"@ && "status"@ != "stop"@ && "status"@ != "restart"@);
    assert(line[cmd.len() as int] == ' ');
    if line == "status"@ {
        assert("status"@[cmd.len() as int] != ' ');
    }
}

/// An environment entry stops the reading exactly where its value, after
/// its first `=`, is one double quote, and no other value does.
pub proof fn law_lone_quote_is_one_quote(k: Seq<char>, v: Seq<char>)
    requires
        forall|i: int| 0 <= i < k.len() ==> k[i] != '=',
    ensures
        lone_quote(k + seq!['='] + v) <==> v == seq!['"'],
{
    let e = k + seq!['='] + v;
    assert(e[k.len() as int] == '=');
    assert forall|i: int| 0 <= i < k.len() implies e[i] != '=' by {
        assert(e[i] == k[i]);
    }
    lemma_first_index_found(e, '=', k.len() as int);
    assert(e.skip(k.len() as int + 1) == v);
}

proof fn lemma_env_panics_witness(entries: Seq<Seq<char>>)
    requires
        env_panics(entries),
    ensures
        exists|i: int, q: int|
            0 <= i < entries.len() && first_index(entries[i], '=') == Some(q - 1)
                && #[trigger] entries[i].skip(q) == seq!['"'],
    decreases entries.len(),
{
    let prev = entries.drop_last();
    if env_panics(prev) {
        lemma_env_panics_witness(prev);
        let (i, q) = choose|i: int, q: int|
            0 <= i < prev.len() && first_index(prev[i], '=') == Some(q - 1)
                && #[trigger] prev[i].skip(q) == seq!['"'];
        assert(entries[i] == prev[i]);
        assert(entries[i].skip(q) == seq!['"']);
    } else {
        let last = entries.last();
        assert(lone_quote(last));
        let p = first_index(last, '=')->Some_0;
        assert(entries[entries.len() - 1] == last);
        assert(first_index(entries[entries.len() - 1], '=') == Some((p + 1) - 1));
        assert(entries[entries.len() - 1].skip(p + 1) == seq!['"']);
    }
}

/// The environment field stops the reading only where one of its entries
/// has, after its first `=`, a value that is exactly one double quote.
pub proof fn law_only_a_lone_quote_stops_the_environment(raw: RawView)
    requires
        spec_environment_panics(raw),
    ensures
        exists|e: Seq<char>, i: int, q: int|
            {
                &&& field(raw, "environment"@) == Some(Some(e))
                &&& 0 <= i < split_on(e, ',').len()
                &&& first_index(split_on(e, ',')[i], '=') == Some(q - 1)
                &&& #[trigger] split_on(e, ',')[i].skip(q) == seq!['"']
            },
{
    let e = field(raw, "environment"@)->Some_0->Some_0;
    lemma_env_panics_witness(split_on(e, ','));
}

/// A configuration stops loading only at a section whose environment field
/// stops the reading; every other configuration loads.
pub proof fn law_only_a_lone_quote_stops_loading(secs: Seq<(Seq<char>, RawView)>)
    requires
        content_panics(secs),
    ensures
        exists|j: int| 0 <= j < secs.len() && spec_environment_panics(#[trigger] secs[j].1),
    decreases secs.len(),
{
    let prev = secs.drop_last();
    if content_panics(prev) {
        law_only_a_lone_quote_stops_loading(prev);
        let j = choose|j: int| 0 <= j < prev.len() && spec_environment_panics(#[trigger] prev[j].1);
        assert(secs[j] == prev[j]);
    } else {
        assert(secs[secs.len() - 1] == secs.last());
    }
}

/// The upper case of a small ASCII letter.
pub open spec fn ascii_upper(c: char) -> char {
    if 'a' <= c && c <= 'z' {
        ((c as u32) - 32) as char
    } else {
        c
    }
}

/// The stop signal reads the same whatever the case of its ASCII letters:
/// a value and the same value with its small letters made capitals name
/// the same signal, or are both refused.
pub proof fn law_stop_signal_in_capitals(raw1: RawView, raw2: RawView, s: Seq<char>)
    requires
        field(raw1, "stopsignal"@) == Some(Some(s)),
        field(raw2, "stopsignal"@) == Some(Some(s.map_values(|c: char| ascii_upper(c)))),
    ensures
        spec_stop_signal(raw1) is Ok <==> spec_stop_signal(raw2) is Ok,
        spec_stop_signal(raw1) is Ok ==> spec_stop_signal(raw1) == spec_stop_signal(raw2),
{
    let t = s.map_values(|c: char| ascii_upper(c));
    assert(s.map_values(|c: char| ascii_lower(c)) =~= t.map_values(|c: char| ascii_lower(c))) by {
        assert forall|i: int| 0 <= i < s.len() implies ascii_lower(#[trigger] s[i]) == ascii_lower(
            t[i],
        ) by {
            let c = s[i];
            assert(t[i] == ascii_upper(c));
            if 'a' <= c && c <= 'z' {
                let u = (c as u32) - 32;
                assert(65 <= u <= 90);
                assert((u as char) as u32 == u);
            }
        }
    }
    law_stop_signal_ignores_case(raw1, raw2, s, t);
}

/// An environment field of one entry `key=value` maps exactly the key as
/// written, letter case kept, to the value, which loses surrounding double
/// quotes where it has them.
pub proof fn law_environment_keeps_the_key_as_written(raw: RawView, k: Seq<char>, v: Seq<char>)
    requires
        forall|i: int| 0 <= i < k.len() ==> k[i] != '=' && k[i] != ',',
        k.len() == 0 || !separator(k[0]),
        forall|i: int| 0 <= i < v.len() ==> v[i] != ',',
        field(raw, "environment"@) == Some(Some(k + seq!['='] + v)),
    ensures
        spec_environment(raw) == Ok::<Option<Map<Seq<char>, Seq<char>>>, ErrorV>(
            Some(
                Map::<Seq<char>, Seq<char>>::empty().insert(
                    k,
                    if v.len() >= 2 && v[0] == '"' && v[v.len() - 1] == '"' {
                        v.subrange(1, v.len() - 1)
                    } else {
                        v
                    },
                ),
            ),
        ),
{
    let e = k + seq!['='] + v;
    assert forall|i: int| 0 <= i < e.len() implies e[i] != ',' by {
        if i < k.len() {
            assert(e[i] == k[i]);
        } else if i > k.len() {
            assert(e[i] == v[i - k.len() - 1]);
        }
    }
    lemma_one_piece(e, ',');
    let es = seq![e];
    assert(es.drop_last() == Seq::<Seq<char>>::empty());
    assert(es.last() == e);
    assert(e[k.len() as int] == '=');
    assert forall|i: int| 0 <= i < k.len() implies e[i] != '=' by {
        assert(e[i] == k[i]);
    }
    lemma_first_index_found(e, '=', k.len() as int);
    assert(e.take(k.len() as int) == k);
    assert(e.skip(k.len() as int + 1) == v);
    if k.len() > 0 {
        lemma_separator_is_ws(k[0]);
    }
    lemma_trim_start_skip(k, 0);
    assert(k.skip(0) == k);
    if v.len() >= 2 {
        assert(v.last() == v[v.len() - 1]);
    }
    assert(trim_start(e.take(k.len() as int)) == k);
    assert(env_entry(e) == Some((k, unquote(v))));
    assert(env_fold(Seq::<Seq<char>>::empty()) == Ok::<Map<Seq<char>, Seq<char>>, ErrorV>(
        Map::empty(),
    ));
    assert(env_fold(es) == Ok::<Map<Seq<char>, Seq<char>>, ErrorV>(
        Map::<Seq<char>, Seq<char>>::empty().insert(k, unquote(v)),
    ));
}

} // verus!
