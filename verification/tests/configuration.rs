//! The configuration tests of the job supervisor: each configuration text is
//! read with `configparser`, as the supervisor reads its file, then handed to
//! the library.
use configparser::ini::Ini;
use taskmaster::config::{Config, ConfigParserContent};
use taskmaster::error::{Error, Result};
use taskmaster::job::{AutorestartOptions, Job, StopSignals};
use taskmaster::parse::RawConfig;
use taskmaster::strmap::StrMap;

fn get_config_parser_and_config(content: String) -> (ConfigParserContent, Config) {
    let parsed = Ini::new().read(content).unwrap();
    let mut cfg: ConfigParserContent = StrMap::new();
    for (section, fields) in parsed {
        let mut raw: RawConfig = StrMap::new();
        for (key, value) in fields {
            raw.insert(key, value);
        }
        cfg.insert(section, raw);
    }
    (cfg, Config::new())
}

fn env_map(pairs: &[(&str, &str)]) -> StrMap<String> {
    let mut map: StrMap<String> = StrMap::new();
    for (k, v) in pairs {
        map.insert(k.to_string(), v.to_string());
    }
    map
}

#[test]
fn config_no_job() -> Result<()> {
    let (config_parser, mut config) = get_config_parser_and_config("".into());
    assert_eq!(
        config.parse_content_of_parserconfig(config_parser),
        Err(Error::NoJobEntry)
    );
    assert!(config.map.is_empty());
    Ok(())
}

#[test]
fn config_only_global() -> Result<()> {
    let (config_parser, mut config) = get_config_parser_and_config(String::from(
        "command=test
             numprocs=2",
    ));
    let val: Result<()> = config.parse_content_of_parserconfig(config_parser);
    assert_eq!(val, Err(Error::NoJobEntry));
    assert!(config.map.is_empty());
    Ok(())
}

#[test]
fn config_global_and_another_job() -> Result<()> {
    let job_name: String = String::from("test");
    let command: String = String::from("/bin/test");
    let (config_parser, mut config) = get_config_parser_and_config(format!(
        "command=test
             numprocs=2
             [{job_name}]
             command={command}",
    ));
    config.parse_content_of_parserconfig(config_parser)?;
    let job: &Job = config.map.get(&job_name).unwrap();
    assert_eq!(
        *job,
        Job {
            command,
            num_procs: 1,
            auto_start: true,
            auto_restart: AutorestartOptions::UnexpectedExit,
            exit_codes: vec![1],
            start_secs: 1,
            start_retries: 3,
            stop_signal: StopSignals::TERM,
            stop_wait_secs: 10,
            stderr_file: None,
            stdout_file: None,
            environment: None,
            work_dir: None,
            umask: None,
            ..Default::default()
        },
    );
    assert_eq!(config.map.len(), 1);
    Ok(())
}

#[test]
fn config_default() -> Result<()> {
    let job_name: String = String::from("test");
    let command: String = String::from("/bin/test");
    let (config_parser, mut config) = get_config_parser_and_config(format!(
        "[{job_name}]
             command= {command}",
    ));
    config.parse_content_of_parserconfig(config_parser)?;
    let job: &Job = config.map.get(&job_name).unwrap();
    assert_eq!(
        *job,
        Job {
            command,
            num_procs: 1,
            auto_start: true,
            auto_restart: AutorestartOptions::UnexpectedExit,
            exit_codes: vec![1],
            start_secs: 1,
            start_retries: 3,
            stop_signal: StopSignals::TERM,
            stop_wait_secs: 10,
            stderr_file: None,
            stdout_file: None,
            environment: None,
            work_dir: None,
            umask: None,
            ..Default::default()
        },
    );
    assert_eq!(config.map.len(), 1);
    Ok(())
}

#[test]
fn config_multiple_config_ok() -> Result<()> {
    let (config_parser, mut config) = get_config_parser_and_config(String::from(
        "[cat]
        command= /bin/cat

        [netcat]
        command=/bin/nc
        numprocs=2
        autostart=true
        autorestart=always
        exitcodes=0, 2, 4
        startsecs=10
        startretries=5
        stopsignal=INT
        stopwaitsecs=20
        stderr=/path/stderr
        stdout=/path/stdout
        environment=FIRSTNAME=\"John\",LASTNAME=\"Doe\"
        workdir=/tmp
        umask=022
",
    ));
    config.parse_content_of_parserconfig(config_parser)?;
    let mut job: &Job = config.map.get("netcat".into()).unwrap();
    assert_eq!(
        *job,
        Job {
            command: "/bin/nc".into(),
            num_procs: 2,
            auto_start: true,
            auto_restart: AutorestartOptions::Always,
            exit_codes: vec![0, 2, 4],
            start_secs: 10,
            start_retries: 5,
            stop_signal: StopSignals::INT,
            stop_wait_secs: 20,
            stderr_file: Some("/path/stderr".into()),
            stdout_file: Some("/path/stdout".into()),
            environment: Some(env_map(&[
                ("FIRSTNAME", "John"),
                ("LASTNAME", "Doe")
            ])),
            work_dir: Some("/tmp".into()),
            umask: Some(0o22),
            ..Default::default()
        },
    );
    job = config.map.get("cat".into()).unwrap();
    assert_eq!(
        *job,
        Job {
            command: "/bin/cat".into(),
            ..Default::default()
        },
    );
    assert_eq!(config.map.len(), 2);
    Ok(())
}

#[test]
fn config_empty_command() -> Result<()> {
    let (config_parser, mut config) = get_config_parser_and_config(String::from(
        "[test]
             command=",
    ));
    let val: Result<()> = config.parse_content_of_parserconfig(config_parser);
    assert!(matches!(val, Err(Error::CantParseEntry { .. })));
    assert!(config.map.is_empty());
    Ok(())
}

#[test]
fn config_no_command() -> Result<()> {
    let (config_parser, mut config) = get_config_parser_and_config(String::from(
        "[test]
             numprocs: 2",
    ));
    assert_eq!(
        config.parse_content_of_parserconfig(config_parser),
        Err(Error::CantParseEntry {
            entry_name: String::from("test"),
            e: Error::FieldCommandIsNotSet.to_string(),
        })
    );
    assert!(config.map.is_empty());
    Ok(())
}

#[test]
fn command_with_arguments() -> Result<()> {
    let (config_parser, mut config) = get_config_parser_and_config(String::from(
        "[test]
             command = nc -nvlp 5555",
    ));
    config.parse_content_of_parserconfig(config_parser)?;
    let job: &Job = config.map.get("test".into()).unwrap();
    assert_eq!(
        *job,
        Job {
            command: "nc".into(),
            arguments: Some(vec!("-nvlp".into(), "5555".into())),
            ..Default::default()
        },
    );
    Ok(())
}

#[test]
fn config_num_procs_ok() -> Result<()> {
    let job_name: String = String::from("test");
    let command: String = String::from("/bin/test");
    let (config_parser, mut config) = get_config_parser_and_config(format!(
        "[{job_name}]
             command={command}
             numprocs=2",
    ));
    config.parse_content_of_parserconfig(config_parser)?;
    let job: &Job = config.map.get(&job_name).unwrap();
    assert_eq!(
        *job,
        Job {
            command,
            num_procs: 2,
            ..Default::default()
        },
    );
    Ok(())
}

#[test]
fn config_num_procs_bad_value() -> Result<()> {
    let job_name: String = String::from("test");
    let command: String = String::from("/bin/test");
    let (config_parser, mut config) = get_config_parser_and_config(format!(
        "[{job_name}]
             command={command}
             numprocs=badnumprocs",
    ));
    let val: Result<()> = config.parse_content_of_parserconfig(config_parser);
    assert!(matches!(val, Err(Error::CantParseEntry { .. })));
    assert!(config.map.is_empty());
    Ok(())
}

#[test]
fn config_autostart_ok() -> Result<()> {
    let job_name: String = String::from("test");
    let command: String = String::from("/bin/test");
    let (config_parser, mut config) = get_config_parser_and_config(format!(
        "[{job_name}]
             command={command}
             autostart=false",
    ));
    config.parse_content_of_parserconfig(config_parser)?;
    let job: &Job = config.map.get(&job_name).unwrap();
    assert_eq!(
        *job,
        Job {
            command,
            auto_start: false,
            ..Default::default()
        },
    );
    Ok(())
}

#[test]
fn config_autostart_bad_value() -> Result<()> {
    let job_name: String = String::from("test");
    let command: String = String::from("/bin/test");
    let (config_parser, mut config) = get_config_parser_and_config(format!(
        "[{job_name}]
             command={command}
             autostart=badvalue",
    ));
    let val: Result<()> = config.parse_content_of_parserconfig(config_parser);
    assert!(matches!(val, Err(Error::CantParseEntry { .. })));
    assert!(config.map.is_empty());
    Ok(())
}

#[test]
fn config_autorestart_ok() -> Result<()> {
    let job_name: String = String::from("test");
    let command: String = String::from("/bin/test");
    let (config_parser, mut config) = get_config_parser_and_config(format!(
        "[{job_name}]
             command={command}
             autorestart=always",
    ));
    config.parse_content_of_parserconfig(config_parser)?;
    let job: &Job = config.map.get(&job_name).unwrap();
    assert_eq!(
        *job,
        Job {
            command,
            auto_restart: AutorestartOptions::Always,
            ..Default::default()
        },
    );
    Ok(())
}

#[test]
fn config_autorestart_bad_value() -> Result<()> {
    let job_name: String = String::from("test");
    let command: String = String::from("/bin/test");
    let (config_parser, mut config) = get_config_parser_and_config(format!(
        "[{job_name}]
             command={command}
             autorestart=badvalue",
    ));
    let val: Result<()> = config.parse_content_of_parserconfig(config_parser);
    assert!(matches!(val, Err(Error::CantParseEntry { .. })));
    assert!(config.map.is_empty());
    Ok(())
}

#[test]
fn config_exitcodes_ok() -> Result<()> {
    let job_name: String = String::from("test");
    let command: String = String::from("/bin/test");
    let (config_parser, mut config) = get_config_parser_and_config(format!(
        "[{job_name}]
             command={command}
             exitcodes=0, 2, 42",
    ));
    config.parse_content_of_parserconfig(config_parser)?;
    let job: &Job = config.map.get(&job_name).unwrap();
    assert_eq!(
        *job,
        Job {
            command,
            exit_codes: vec![0, 2, 42],
            ..Default::default()
        },
    );
    Ok(())
}

#[test]
fn config_exitcodes_bad_value() -> Result<()> {
    let job_name: String = String::from("test");
    let command: String = String::from("/bin/test");
    let (config_parser, mut config) = get_config_parser_and_config(format!(
        "[{job_name}]
             command={command}
             exitcodes=1, 2, 5, asdf, 4",
    ));
    let val: Result<()> = config.parse_content_of_parserconfig(config_parser);
    assert!(matches!(val, Err(Error::CantParseEntry { .. })));
    assert!(config.map.is_empty());
    Ok(())
}

#[test]
fn config_exitcodes_overflow() -> Result<()> {
    let job_name: String = String::from("test");
    let command: String = String::from("/bin/test");
    let (config_parser, mut config) = get_config_parser_and_config(format!(
        "[{job_name}]
             command={command}
             exitcodes=1, 2, 5, 256, 4",
    ));
    let val: Result<()> = config.parse_content_of_parserconfig(config_parser);
    assert!(matches!(val, Err(Error::CantParseEntry { .. })));
    assert!(config.map.is_empty());
    Ok(())
}

#[test]
fn config_start_secs_ok() -> Result<()> {
    let job_name: String = String::from("test");
    let command: String = String::from("/bin/test");
    let (config_parser, mut config) = get_config_parser_and_config(format!(
        "[{job_name}]
             command={command}
             startsecs=30",
    ));
    config.parse_content_of_parserconfig(config_parser)?;
    let job: &Job = config.map.get(&job_name).unwrap();
    assert_eq!(
        *job,
        Job {
            command,
            start_secs: 30,
            ..Default::default()
        },
    );
    Ok(())
}

#[test]
fn config_start_secs_bad_value() -> Result<()> {
    let job_name: String = String::from("test");
    let command: String = String::from("/bin/test");
    let (config_parser, mut config) = get_config_parser_and_config(format!(
        "[{job_name}]
             command={command}
             startsecs=bad",
    ));
    let val: Result<()> = config.parse_content_of_parserconfig(config_parser);
    assert!(matches!(val, Err(Error::CantParseEntry { .. })));
    assert!(config.map.is_empty());
    Ok(())
}

#[test]
fn config_start_retries_ok() -> Result<()> {
    let job_name: String = String::from("test");
    let command: String = String::from("/bin/test");
    let (config_parser, mut config) = get_config_parser_and_config(format!(
        "[{job_name}]
             command={command}
             startretries=5",
    ));
    config.parse_content_of_parserconfig(config_parser)?;
    let job: &Job = config.map.get(&job_name).unwrap();
    assert_eq!(
        *job,
        Job {
            command,
            start_retries: 5,
            ..Default::default()
        },
    );
    Ok(())
}

#[test]
fn config_start_retries_bad_value() -> Result<()> {
    let job_name: String = String::from("test");
    let command: String = String::from("/bin/test");
    let (config_parser, mut config) = get_config_parser_and_config(format!(
        "[{job_name}]
             command={command}
             startretries=bad",
    ));
    let val: Result<()> = config.parse_content_of_parserconfig(config_parser);
    assert!(matches!(val, Err(Error::CantParseEntry { .. })));
    assert!(config.map.is_empty());
    Ok(())
}

#[test]
fn config_stop_signals_ok() -> Result<()> {
    let job_name: String = String::from("test");
    let command: String = String::from("/bin/test");
    let (config_parser, mut config) = get_config_parser_and_config(format!(
        "[{job_name}]
             command={command}
             stopsignal=INT",
    ));
    config.parse_content_of_parserconfig(config_parser)?;
    let job: &Job = config.map.get(&job_name).unwrap();
    assert_eq!(
        *job,
        Job {
            command,
            stop_signal: StopSignals::INT,
            ..Default::default()
        },
    );
    Ok(())
}

#[test]
fn config_stop_signal_bad_value() -> Result<()> {
    let job_name: String = String::from("test");
    let command: String = String::from("/bin/test");
    let (config_parser, mut config) = get_config_parser_and_config(format!(
        "[{job_name}]
             command={command}
             stopsignal=bad",
    ));
    let val: Result<()> = config.parse_content_of_parserconfig(config_parser);
    assert!(matches!(val, Err(Error::CantParseEntry { .. })));
    assert!(config.map.is_empty());
    Ok(())
}

#[test]
fn config_stop_wait_secs_ok() -> Result<()> {
    let job_name: String = String::from("test");
    let command: String = String::from("/bin/test");
    let (config_parser, mut config) = get_config_parser_and_config(format!(
        "[{job_name}]
             command={command}
             stopwaitsecs=20",
    ));
    config.parse_content_of_parserconfig(config_parser)?;
    let job: &Job = config.map.get(&job_name).unwrap();
    assert_eq!(
        *job,
        Job {
            command,
            stop_wait_secs: 20,
            ..Default::default()
        },
    );
    Ok(())
}

#[test]
fn config_stop_wait_seconds_bad_value() -> Result<()> {
    let job_name: String = String::from("test");
    let command: String = String::from("/bin/test");
    let (config_parser, mut config) = get_config_parser_and_config(format!(
        "[{job_name}]
             command={command}
             stopwaitsecs=bad",
    ));
    let val: Result<()> = config.parse_content_of_parserconfig(config_parser);
    assert!(matches!(val, Err(Error::CantParseEntry { .. })));
    assert!(config.map.is_empty());
    Ok(())
}

#[test]
fn config_stderr_file_ok() -> Result<()> {
    let job_name: String = String::from("test");
    let command: String = String::from("/bin/test");
    let (config_parser, mut config) = get_config_parser_and_config(format!(
        "[{job_name}]
             command={command}
             stderr=/dev/null",
    ));
    config.parse_content_of_parserconfig(config_parser)?;
    let job: &Job = config.map.get(&job_name).unwrap();
    assert_eq!(
        *job,
        Job {
            command,
            stderr_file: Some("/dev/null".to_string()),
            ..Default::default()
        },
    );
    Ok(())
}

#[test]
fn config_stderr_file_empty() -> Result<()> {
    let job_name: String = String::from("test");
    let command: String = String::from("/bin/test");
    let (config_parser, mut config) = get_config_parser_and_config(format!(
        "[{job_name}]
             command={command}
             stderr=",
    ));
    config.parse_content_of_parserconfig(config_parser)?;
    let job: &Job = config.map.get(&job_name).unwrap();
    assert_eq!(
        *job,
        Job {
            command,
            stderr_file: Job::default().stderr_file,
            ..Default::default()
        },
    );
    Ok(())
}

#[test]
fn config_stderr_file_bad_value() -> Result<()> {
    let job_name: String = String::from("test");
    let command: String = String::from("/bin/test");
    let (config_parser, mut config) = get_config_parser_and_config(format!(
        "[{job_name}]
             command={command}
             stderr=bad path",
    ));
    let val: Result<()> = config.parse_content_of_parserconfig(config_parser);
    assert!(matches!(val, Err(Error::CantParseEntry { .. })));
    assert!(config.map.is_empty());
    Ok(())
}

#[test]
fn config_stdout_file_ok() -> Result<()> {
    let job_name: String = String::from("test");
    let command: String = String::from("/bin/test");
    let (config_parser, mut config) = get_config_parser_and_config(format!(
        "[{job_name}]
             command={command}
             stdout=/dev/null",
    ));
    config.parse_content_of_parserconfig(config_parser)?;
    let job: &Job = config.map.get(&job_name).unwrap();
    assert_eq!(
        *job,
        Job {
            command,
            stdout_file: Some("/dev/null".to_string()),
            ..Default::default()
        },
    );
    Ok(())
}

#[test]
fn config_stdout_file_bad_value() -> Result<()> {
    let job_name: String = String::from("test");
    let command: String = String::from("/bin/test");
    let (config_parser, mut config) = get_config_parser_and_config(format!(
        "[{job_name}]
             command={command}
             stdout=bad path",
    ));
    let val: Result<()> = config.parse_content_of_parserconfig(config_parser);
    assert!(matches!(val, Err(Error::CantParseEntry { .. })));
    assert!(config.map.is_empty());
    Ok(())
}

#[test]
fn config_working_directory_ok() -> Result<()> {
    let job_name: String = String::from("test");
    let command: String = String::from("/bin/test");
    let (config_parser, mut config) = get_config_parser_and_config(format!(
        "[{job_name}]
             command={command}
             workdir=/tmp",
    ));
    config.parse_content_of_parserconfig(config_parser)?;
    let job: &Job = config.map.get(&job_name).unwrap();
    assert_eq!(
        *job,
        Job {
            command,
            work_dir: Some("/tmp".to_string()),
            ..Default::default()
        },
    );
    Ok(())
}

#[test]
fn config_working_directory_bad_value() -> Result<()> {
    let job_name: String = String::from("test");
    let command: String = String::from("/bin/test");
    let (config_parser, mut config) = get_config_parser_and_config(format!(
        "[{job_name}]
             command={command}
             workdir=bad path",
    ));
    let val: Result<()> = config.parse_content_of_parserconfig(config_parser);
    assert!(matches!(val, Err(Error::CantParseEntry { .. })));
    assert!(config.map.is_empty());
    Ok(())
}

#[test]
fn config_umask_ok() -> Result<()> {
    let job_name: String = String::from("test");
    let command: String = String::from("/bin/test");
    let (config_parser, mut config) = get_config_parser_and_config(format!(
        "[{job_name}]
             command={command}
             umask=012",
    ));
    config.parse_content_of_parserconfig(config_parser)?;
    let job: &Job = config.map.get(&job_name).unwrap();
    assert_eq!(
        *job,
        Job {
            command,
            umask: Some(0o12),
            ..Default::default()
        },
    );
    Ok(())
}

#[test]
fn config_umask_too_much_char() -> Result<()> {
    let job_name: String = String::from("test");
    let command: String = String::from("/bin/test");
    let (config_parser, mut config) = get_config_parser_and_config(format!(
        "[{job_name}]
             command={command}
             umask=01234",
    ));
    let val: Result<()> = config.parse_content_of_parserconfig(config_parser);
    assert!(matches!(val, Err(Error::CantParseEntry { .. })));
    assert!(config.map.is_empty());
    Ok(())
}

#[test]
fn config_umask_bad_value() -> Result<()> {
    let job_name: String = String::from("test");
    let command: String = String::from("/bin/test");
    let (config_parser, mut config) = get_config_parser_and_config(format!(
        "[{job_name}]
             command={command}
             umask=abc",
    ));
    let val: Result<()> = config.parse_content_of_parserconfig(config_parser);
    assert!(matches!(val, Err(Error::CantParseEntry { .. })));
    assert!(config.map.is_empty());
    Ok(())
}

#[test]
fn config_umask_value_too_big() -> Result<()> {
    let job_name: String = String::from("test");
    let command: String = String::from("/bin/test");
    let (config_parser, mut config) = get_config_parser_and_config(format!(
        "[{job_name}]
             command={command}
             umask=019",
    ));
    let val: Result<()> = config.parse_content_of_parserconfig(config_parser);
    assert!(matches!(val, Err(Error::CantParseEntry { .. })));
    assert!(config.map.is_empty());
    Ok(())
}

#[test]
fn config_environment_ok() -> Result<()> {
    let job_name: String = String::from("test");
    let command: String = String::from("/bin/test");
    let (config_parser, mut config) = get_config_parser_and_config(format!(
        "[{job_name}]
             command={command}
             environment=A=\"1\",B=\"2\"",
    ));
    config.parse_content_of_parserconfig(config_parser)?;
    let job: &Job = config.map.get(&job_name).unwrap();
    assert_eq!(
        *job,
        Job {
            command,
            environment: Some(env_map(&[
                ("A", "1"),
                ("B", "2")
            ])),
            ..Default::default()
        },
    );
    Ok(())
}

#[test]
fn config_environment_nothing_between_comma() -> Result<()> {
    let job_name: String = String::from("test");
    let command: String = String::from("/bin/test");
    let (config_parser, mut config) = get_config_parser_and_config(format!(
        "[{job_name}]
             command={command}
             environment=A=\"1\",,B=\"2\"",
    ));
    let val: Result<()> = config.parse_content_of_parserconfig(config_parser);
    assert!(matches!(val, Err(Error::CantParseEntry { .. })));
    assert!(config.map.is_empty());
    Ok(())
}

#[test]
fn config_environment_equal_between_double_quotes() -> Result<()> {
    let job_name: String = String::from("test");
    let command: String = String::from("/bin/test");
    let (config_parser, mut config) = get_config_parser_and_config(format!(
        "[{job_name}]
             command={command}
             environment=A=\"1\",B=\"2=5\"",
    ));
    config.parse_content_of_parserconfig(config_parser)?;
    let job: &Job = config.map.get(&job_name).unwrap();
    assert_eq!(
        *job,
        Job {
            command,
            environment: Some(env_map(&[
                ("A", "1"),
                ("B", "2=5")
            ])),
            ..Default::default()
        },
    );
    Ok(())
}

#[test]
fn config_environment_quote_in_value() -> Result<()> {
    let job_name: String = String::from("test");
    let command: String = String::from("/bin/test");
    let (config_parser, mut config) = get_config_parser_and_config(format!(
        "[{job_name}]
             command={command}
             environment=A=\"1\",B=\"\"\"",
    ));
    config.parse_content_of_parserconfig(config_parser)?;
    let job: &Job = config.map.get(&job_name).unwrap();
    assert_eq!(
        *job,
        Job {
            command,
            environment: Some(env_map(&[
                ("A", "1"),
                ("B", "\"")
            ])),
            ..Default::default()
        },
    );
    Ok(())
}

#[test]
fn mod_no_job() -> Result<()> {
    let (config_parser, mut config) = get_config_parser_and_config("".into());
    assert_eq!(
        config.parse_content_of_parserconfig(config_parser),
        Err(Error::NoJobEntry)
    );
    assert!(config.map.is_empty());
    Ok(())
}

#[test]
fn mod_only_global() -> Result<()> {
    let (config_parser, mut config) = get_config_parser_and_config(String::from(
        "command=test
             numprocs=2",
    ));
    let val: Result<()> = config.parse_content_of_parserconfig(config_parser);
    assert_eq!(val, Err(Error::NoJobEntry));
    assert!(config.map.is_empty());
    Ok(())
}

#[test]
fn mod_global_and_another_job() -> Result<()> {
    let job_name: String = String::from("test");
    let command: String = String::from("/bin/test");
    let (config_parser, mut config) = get_config_parser_and_config(format!(
        "command=test
             numprocs=2
             [{job_name}]
             command={command}",
    ));
    config.parse_content_of_parserconfig(config_parser)?;
    let job: &Job = config.map.get(&job_name).unwrap();
    assert_eq!(
        *job,
        Job {
            command,
            arguments: None,
            num_procs: 1,
            auto_start: true,
            auto_restart: AutorestartOptions::UnexpectedExit,
            exit_codes: vec![1],
            start_secs: 1,
            start_retries: 3,
            stop_signal: StopSignals::TERM,
            stop_wait_secs: 10,
            stderr_file: None,
            stdout_file: None,
            environment: None,
            work_dir: None,
            umask: None,
        },
    );
    assert_eq!(config.map.len(), 1);
    Ok(())
}

#[test]
fn mod_default() -> Result<()> {
    let job_name: String = String::from("test");
    let command: String = String::from("/bin/test");
    let (config_parser, mut config) = get_config_parser_and_config(format!(
        "[{job_name}]
             command: {command}",
    ));
    config.parse_content_of_parserconfig(config_parser)?;
    let job: &Job = config.map.get(&job_name).unwrap();
    assert_eq!(
        *job,
        Job {
            command,
            arguments: None,
            num_procs: 1,
            auto_start: true,
            auto_restart: AutorestartOptions::UnexpectedExit,
            exit_codes: vec![1],
            start_secs: 1,
            start_retries: 3,
            stop_signal: StopSignals::TERM,
            stop_wait_secs: 10,
            stderr_file: None,
            stdout_file: None,
            environment: None,
            work_dir: None,
            umask: None,
        },
    );
    assert_eq!(config.map.len(), 1);
    Ok(())
}

#[test]
fn mod_no_command() -> Result<()> {
    let (config_parser, mut config) = get_config_parser_and_config(String::from(
        "[test]
             numprocs: 2",
    ));
    assert_eq!(
        config.parse_content_of_parserconfig(config_parser),
        Err(Error::CantParseEntry {
            entry_name: String::from("test"),
            e: Error::FieldCommandIsNotSet.to_string(),
        })
    );
    assert!(config.map.is_empty());
    Ok(())
}

#[test]
fn mod_num_procs_ok() -> Result<()> {
    let job_name: String = String::from("test");
    let command: String = String::from("/bin/test");
    let (config_parser, mut config) = get_config_parser_and_config(format!(
        "[{job_name}]
             command={command}
             numprocs=2",
    ));
    config.parse_content_of_parserconfig(config_parser)?;
    let job: &Job = config.map.get(&job_name).unwrap();
    assert_eq!(
        *job,
        Job {
            command,
            num_procs: 2,
            ..Default::default()
        },
    );
    Ok(())
}

#[test]
fn mod_num_procs_bad_value() -> Result<()> {
    let job_name: String = String::from("test");
    let command: String = String::from("/bin/test");
    let (config_parser, mut config) = get_config_parser_and_config(format!(
        "[{job_name}]
             command={command}
             numprocs=badnumprocs",
    ));
    let val: Result<()> = config.parse_content_of_parserconfig(config_parser);
    assert!(matches!(val, Err(Error::CantParseEntry { .. })));
    assert!(config.map.is_empty());
    Ok(())
}

#[test]
fn mod_autostart_ok() -> Result<()> {
    let job_name: String = String::from("test");
    let command: String = String::from("/bin/test");
    let (config_parser, mut config) = get_config_parser_and_config(format!(
        "[{job_name}]
             command={command}
             autostart=false",
    ));
    config.parse_content_of_parserconfig(config_parser)?;
    let job: &Job = config.map.get(&job_name).unwrap();
    assert_eq!(
        *job,
        Job {
            command,
            auto_start: false,
            ..Default::default()
        },
    );
    Ok(())
}

#[test]
fn mod_autostart_bad_value() -> Result<()> {
    let job_name: String = String::from("test");
    let command: String = String::from("/bin/test");
    let (config_parser, mut config) = get_config_parser_and_config(format!(
        "[{job_name}]
             command={command}
             autostart=badvalue",
    ));
    let val: Result<()> = config.parse_content_of_parserconfig(config_parser);
    assert!(matches!(val, Err(Error::CantParseEntry { .. })));
    assert!(config.map.is_empty());
    Ok(())
}

#[test]
fn mod_autorestart_ok() -> Result<()> {
    let job_name: String = String::from("test");
    let command: String = String::from("/bin/test");
    let (config_parser, mut config) = get_config_parser_and_config(format!(
        "[{job_name}]
             command={command}
             autorestart=always",
    ));
    config.parse_content_of_parserconfig(config_parser)?;
    let job: &Job = config.map.get(&job_name).unwrap();
    assert_eq!(
        *job,
        Job {
            command,
            auto_restart: AutorestartOptions::Always,
            ..Default::default()
        },
    );
    Ok(())
}

#[test]
fn mod_autorestart_bad_value() -> Result<()> {
    let job_name: String = String::from("test");
    let command: String = String::from("/bin/test");
    let (config_parser, mut config) = get_config_parser_and_config(format!(
        "[{job_name}]
             command={command}
             autorestart=badvalue",
    ));
    let val: Result<()> = config.parse_content_of_parserconfig(config_parser);
    assert!(matches!(val, Err(Error::CantParseEntry { .. })));
    assert!(config.map.is_empty());
    Ok(())
}

#[test]
fn mod_exitcodes_ok() -> Result<()> {
    let job_name: String = String::from("test");
    let command: String = String::from("/bin/test");
    let (config_parser, mut config) = get_config_parser_and_config(format!(
        "[{job_name}]
             command={command}
             exitcodes=0, 2, 42",
    ));
    config.parse_content_of_parserconfig(config_parser)?;
    let job: &Job = config.map.get(&job_name).unwrap();
    assert_eq!(
        *job,
        Job {
            command,
            exit_codes: vec![0, 2, 42],
            ..Default::default()
        },
    );
    Ok(())
}

#[test]
fn mod_exitcodes_bad_value() -> Result<()> {
    let job_name: String = String::from("test");
    let command: String = String::from("/bin/test");
    let (config_parser, mut config) = get_config_parser_and_config(format!(
        "[{job_name}]
             command={command}
             exitcodes=1, 2, 5, asdf, 4",
    ));
    let val: Result<()> = config.parse_content_of_parserconfig(config_parser);
    assert!(matches!(val, Err(Error::CantParseEntry { .. })));
    assert!(config.map.is_empty());
    Ok(())
}

#[test]
fn mod_exitcodes_overflow() -> Result<()> {
    let job_name: String = String::from("test");
    let command: String = String::from("/bin/test");
    let (config_parser, mut config) = get_config_parser_and_config(format!(
        "[{job_name}]
             command={command}
             exitcodes=1, 2, 5, 256, 4",
    ));
    let val: Result<()> = config.parse_content_of_parserconfig(config_parser);
    assert!(matches!(val, Err(Error::CantParseEntry { .. })));
    assert!(config.map.is_empty());
    Ok(())
}

#[test]
fn mod_start_secs_ok() -> Result<()> {
    let job_name: String = String::from("test");
    let command: String = String::from("/bin/test");
    let (config_parser, mut config) = get_config_parser_and_config(format!(
        "[{job_name}]
             command={command}
             startsecs=30",
    ));
    config.parse_content_of_parserconfig(config_parser)?;
    let job: &Job = config.map.get(&job_name).unwrap();
    assert_eq!(
        *job,
        Job {
            command,
            start_secs: 30,
            ..Default::default()
        },
    );
    Ok(())
}

#[test]
fn mod_start_secs_bad_value() -> Result<()> {
    let job_name: String = String::from("test");
    let command: String = String::from("/bin/test");
    let (config_parser, mut config) = get_config_parser_and_config(format!(
        "[{job_name}]
             command={command}
             startsecs=bad",
    ));
    let val: Result<()> = config.parse_content_of_parserconfig(config_parser);
    assert!(matches!(val, Err(Error::CantParseEntry { .. })));
    assert!(config.map.is_empty());
    Ok(())
}

#[test]
fn mod_start_retries_ok() -> Result<()> {
    let job_name: String = String::from("test");
    let command: String = String::from("/bin/test");
    let (config_parser, mut config) = get_config_parser_and_config(format!(
        "[{job_name}]
             command={command}
             startretries=5",
    ));
    config.parse_content_of_parserconfig(config_parser)?;
    let job: &Job = config.map.get(&job_name).unwrap();
    assert_eq!(
        *job,
        Job {
            command,
            start_retries: 5,
            ..Default::default()
        },
    );
    Ok(())
}

#[test]
fn mod_start_retries_bad_value() -> Result<()> {
    let job_name: String = String::from("test");
    let command: String = String::from("/bin/test");
    let (config_parser, mut config) = get_config_parser_and_config(format!(
        "[{job_name}]
             command={command}
             startretries=bad",
    ));
    let val: Result<()> = config.parse_content_of_parserconfig(config_parser);
    assert!(matches!(val, Err(Error::CantParseEntry { .. })));
    assert!(config.map.is_empty());
    Ok(())
}

#[test]
fn mod_stop_signals_ok() -> Result<()> {
    let job_name: String = String::from("test");
    let command: String = String::from("/bin/test");
    let (config_parser, mut config) = get_config_parser_and_config(format!(
        "[{job_name}]
             command={command}
             stopsignal=INT",
    ));
    config.parse_content_of_parserconfig(config_parser)?;
    let job: &Job = config.map.get(&job_name).unwrap();
    assert_eq!(
        *job,
        Job {
            command,
            stop_signal: StopSignals::INT,
            ..Default::default()
        },
    );
    Ok(())
}

#[test]
fn mod_stop_signal_bad_value() -> Result<()> {
    let job_name: String = String::from("test");
    let command: String = String::from("/bin/test");
    let (config_parser, mut config) = get_config_parser_and_config(format!(
        "[{job_name}]
             command={command}
             stopsignal=bad",
    ));
    let val: Result<()> = config.parse_content_of_parserconfig(config_parser);
    assert!(matches!(val, Err(Error::CantParseEntry { .. })));
    assert!(config.map.is_empty());
    Ok(())
}

#[test]
fn tests_no_job() -> Result<()> {
    let (config_parser, mut config) = get_config_parser_and_config("".into());
    assert_eq!(
        config.parse_content_of_parserconfig(config_parser),
        Err(Error::NoJobEntry)
    );
    assert!(config.map.is_empty());
    Ok(())
}

#[test]
fn tests_only_global() -> Result<()> {
    let (config_parser, mut config) = get_config_parser_and_config(String::from(
        "command=test
             numprocs=2",
    ));
    let val: Result<()> = config.parse_content_of_parserconfig(config_parser);
    assert_eq!(val, Err(Error::NoJobEntry));
    assert!(config.map.is_empty());
    Ok(())
}

#[test]
fn tests_global_and_another_job() -> Result<()> {
    let job_name: String = String::from("test");
    let command: String = String::from("/bin/test");
    let (config_parser, mut config) = get_config_parser_and_config(format!(
        "command=test
             numprocs=2
             [{job_name}]
             command={command}",
    ));
    config.parse_content_of_parserconfig(config_parser)?;
    let job: &Job = config.map.get(&job_name).unwrap();
    assert_eq!(
        *job,
        Job {
            command,
            arguments: None,
            num_procs: 1,
            auto_start: true,
            auto_restart: AutorestartOptions::UnexpectedExit,
            exit_codes: vec![1],
            start_secs: 1,
            start_retries: 3,
            stop_signal: StopSignals::TERM,
            stop_wait_secs: 10,
            stderr_file: None,
            stdout_file: None,
            environment: None,
            work_dir: None,
            umask: None,
        },
    );
    assert_eq!(config.map.len(), 1);
    Ok(())
}

#[test]
fn tests_default() -> Result<()> {
    let job_name: String = String::from("test");
    let command: String = String::from("/bin/test");
    let (config_parser, mut config) = get_config_parser_and_config(format!(
        "[{job_name}]
             command: {command}",
    ));
    config.parse_content_of_parserconfig(config_parser)?;
    let job: &Job = config.map.get(&job_name).unwrap();
    assert_eq!(
        *job,
        Job {
            command,
            arguments: None,
            num_procs: 1,
            auto_start: true,
            auto_restart: AutorestartOptions::UnexpectedExit,
            exit_codes: vec![1],
            start_secs: 1,
            start_retries: 3,
            stop_signal: StopSignals::TERM,
            stop_wait_secs: 10,
            stderr_file: None,
            stdout_file: None,
            environment: None,
            work_dir: None,
            umask: None,
        },
    );
    assert_eq!(config.map.len(), 1);
    Ok(())
}

#[test]
fn tests_empty_command() -> Result<()> {
    let (config_parser, mut config) = get_config_parser_and_config(String::from(
        "[test]
             command=",
    ));
    let val: Result<()> = config.parse_content_of_parserconfig(config_parser);
    assert!(matches!(val, Err(Error::CantParseEntry { .. })));
    assert!(config.map.is_empty());
    Ok(())
}

#[test]
fn tests_no_command() -> Result<()> {
    let (config_parser, mut config) = get_config_parser_and_config(String::from(
        "[test]
             numprocs: 2",
    ));
    assert_eq!(
        config.parse_content_of_parserconfig(config_parser),
        Err(Error::CantParseEntry {
            entry_name: String::from("test"),
            e: Error::FieldCommandIsNotSet.to_string(),
        })
    );
    assert!(config.map.is_empty());
    Ok(())
}

#[test]
fn tests_num_procs_ok() -> Result<()> {
    let job_name: String = String::from("test");
    let command: String = String::from("/bin/test");
    let (config_parser, mut config) = get_config_parser_and_config(format!(
        "[{job_name}]
             command={command}
             numprocs=2",
    ));
    config.parse_content_of_parserconfig(config_parser)?;
    let job: &Job = config.map.get(&job_name).unwrap();
    assert_eq!(
        *job,
        Job {
            command,
            num_procs: 2,
            ..Default::default()
        },
    );
    Ok(())
}

#[test]
fn tests_num_procs_bad_value() -> Result<()> {
    let job_name: String = String::from("test");
    let command: String = String::from("/bin/test");
    let (config_parser, mut config) = get_config_parser_and_config(format!(
        "[{job_name}]
             command={command}
             numprocs=badnumprocs",
    ));
    let val: Result<()> = config.parse_content_of_parserconfig(config_parser);
    assert!(matches!(val, Err(Error::CantParseEntry { .. })));
    assert!(config.map.is_empty());
    Ok(())
}

#[test]
fn tests_autostart_ok() -> Result<()> {
    let job_name: String = String::from("test");
    let command: String = String::from("/bin/test");
    let (config_parser, mut config) = get_config_parser_and_config(format!(
        "[{job_name}]
             command={command}
             autostart=false",
    ));
    config.parse_content_of_parserconfig(config_parser)?;
    let job: &Job = config.map.get(&job_name).unwrap();
    assert_eq!(
        *job,
        Job {
            command,
            auto_start: false,
            ..Default::default()
        },
    );
    Ok(())
}

#[test]
fn tests_autostart_bad_value() -> Result<()> {
    let job_name: String = String::from("test");
    let command: String = String::from("/bin/test");
    let (config_parser, mut config) = get_config_parser_and_config(format!(
        "[{job_name}]
             command={command}
             autostart=badvalue",
    ));
    let val: Result<()> = config.parse_content_of_parserconfig(config_parser);
    assert!(matches!(val, Err(Error::CantParseEntry { .. })));
    assert!(config.map.is_empty());
    Ok(())
}

#[test]
fn tests_autorestart_ok() -> Result<()> {
    let job_name: String = String::from("test");
    let command: String = String::from("/bin/test");
    let (config_parser, mut config) = get_config_parser_and_config(format!(
        "[{job_name}]
             command={command}
             autorestart=always",
    ));
    config.parse_content_of_parserconfig(config_parser)?;
    let job: &Job = config.map.get(&job_name).unwrap();
    assert_eq!(
        *job,
        Job {
            command,
            auto_restart: AutorestartOptions::Always,
            ..Default::default()
        },
    );
    Ok(())
}

#[test]
fn tests_autorestart_bad_value() -> Result<()> {
    let job_name: String = String::from("test");
    let command: String = String::from("/bin/test");
    let (config_parser, mut config) = get_config_parser_and_config(format!(
        "[{job_name}]
             command={command}
             autorestart=badvalue",
    ));
    let val: Result<()> = config.parse_content_of_parserconfig(config_parser);
    assert!(matches!(val, Err(Error::CantParseEntry { .. })));
    assert!(config.map.is_empty());
    Ok(())
}

#[test]
fn tests_exitcodes_ok() -> Result<()> {
    let job_name: String = String::from("test");
    let command: String = String::from("/bin/test");
    let (config_parser, mut config) = get_config_parser_and_config(format!(
        "[{job_name}]
             command={command}
             exitcodes=0, 2, 42",
    ));
    config.parse_content_of_parserconfig(config_parser)?;
    let job: &Job = config.map.get(&job_name).unwrap();
    assert_eq!(
        *job,
        Job {
            command,
            exit_codes: vec![0, 2, 42],
            ..Default::default()
        },
    );
    Ok(())
}

#[test]
fn tests_exitcodes_bad_value() -> Result<()> {
    let job_name: String = String::from("test");
    let command: String = String::from("/bin/test");
    let (config_parser, mut config) = get_config_parser_and_config(format!(
        "[{job_name}]
             command={command}
             exitcodes=1, 2, 5, asdf, 4",
    ));
    let val: Result<()> = config.parse_content_of_parserconfig(config_parser);
    assert!(matches!(val, Err(Error::CantParseEntry { .. })));
    assert!(config.map.is_empty());
    Ok(())
}

#[test]
fn tests_exitcodes_overflow() -> Result<()> {
    let job_name: String = String::from("test");
    let command: String = String::from("/bin/test");
    let (config_parser, mut config) = get_config_parser_and_config(format!(
        "[{job_name}]
             command={command}
             exitcodes=1, 2, 5, 256, 4",
    ));
    let val: Result<()> = config.parse_content_of_parserconfig(config_parser);
    assert!(matches!(val, Err(Error::CantParseEntry { .. })));
    assert!(config.map.is_empty());
    Ok(())
}

#[test]
fn tests_start_secs_ok() -> Result<()> {
    let job_name: String = String::from("test");
    let command: String = String::from("/bin/test");
    let (config_parser, mut config) = get_config_parser_and_config(format!(
        "[{job_name}]
             command={command}
             startsecs=30",
    ));
    config.parse_content_of_parserconfig(config_parser)?;
    let job: &Job = config.map.get(&job_name).unwrap();
    assert_eq!(
        *job,
        Job {
            command,
            start_secs: 30,
            ..Default::default()
        },
    );
    Ok(())
}

#[test]
fn tests_start_secs_bad_value() -> Result<()> {
    let job_name: String = String::from("test");
    let command: String = String::from("/bin/test");
    let (config_parser, mut config) = get_config_parser_and_config(format!(
        "[{job_name}]
             command={command}
             startsecs=bad",
    ));
    let val: Result<()> = config.parse_content_of_parserconfig(config_parser);
    assert!(matches!(val, Err(Error::CantParseEntry { .. })));
    assert!(config.map.is_empty());
    Ok(())
}

#[test]
fn tests_start_retries_ok() -> Result<()> {
    let job_name: String = String::from("test");
    let command: String = String::from("/bin/test");
    let (config_parser, mut config) = get_config_parser_and_config(format!(
        "[{job_name}]
             command={command}
             startretries=5",
    ));
    config.parse_content_of_parserconfig(config_parser)?;
    let job: &Job = config.map.get(&job_name).unwrap();
    assert_eq!(
        *job,
        Job {
            command,
            start_retries: 5,
            ..Default::default()
        },
    );
    Ok(())
}

#[test]
fn tests_start_retries_bad_value() -> Result<()> {
    let job_name: String = String::from("test");
    let command: String = String::from("/bin/test");
    let (config_parser, mut config) = get_config_parser_and_config(format!(
        "[{job_name}]
             command={command}
             startretries=bad",
    ));
    let val: Result<()> = config.parse_content_of_parserconfig(config_parser);
    assert!(matches!(val, Err(Error::CantParseEntry { .. })));
    assert!(config.map.is_empty());
    Ok(())
}

#[test]
fn tests_stop_signals_ok() -> Result<()> {
    let job_name: String = String::from("test");
    let command: String = String::from("/bin/test");
    let (config_parser, mut config) = get_config_parser_and_config(format!(
        "[{job_name}]
             command={command}
             stopsignal=INT",
    ));
    config.parse_content_of_parserconfig(config_parser)?;
    let job: &Job = config.map.get(&job_name).unwrap();
    assert_eq!(
        *job,
        Job {
            command,
            stop_signal: StopSignals::INT,
            ..Default::default()
        },
    );
    Ok(())
}

#[test]
fn tests_stop_signal_bad_value() -> Result<()> {
    let job_name: String = String::from("test");
    let command: String = String::from("/bin/test");
    let (config_parser, mut config) = get_config_parser_and_config(format!(
        "[{job_name}]
             command={command}
             stopsignal=bad",
    ));
    let val: Result<()> = config.parse_content_of_parserconfig(config_parser);
    assert!(matches!(val, Err(Error::CantParseEntry { .. })));
    assert!(config.map.is_empty());
    Ok(())
}

#[test]
fn tests_stop_wait_secs_ok() -> Result<()> {
    let job_name: String = String::from("test");
    let command: String = String::from("/bin/test");
    let (config_parser, mut config) = get_config_parser_and_config(format!(
        "[{job_name}]
             command={command}
             stopwaitsecs=20",
    ));
    config.parse_content_of_parserconfig(config_parser)?;
    let job: &Job = config.map.get(&job_name).unwrap();
    assert_eq!(
        *job,
        Job {
            command,
            stop_wait_secs: 20,
            ..Default::default()
        },
    );
    Ok(())
}

#[test]
fn tests_stop_wait_seconds_bad_value() -> Result<()> {
    let job_name: String = String::from("test");
    let command: String = String::from("/bin/test");
    let (config_parser, mut config) = get_config_parser_and_config(format!(
        "[{job_name}]
             command={command}
             stopwaitsecs=bad",
    ));
    let val: Result<()> = config.parse_content_of_parserconfig(config_parser);
    assert!(matches!(val, Err(Error::CantParseEntry { .. })));
    assert!(config.map.is_empty());
    Ok(())
}

#[test]
fn tests_stderr_file_empty() -> Result<()> {
    let job_name: String = String::from("test");
    let command: String = String::from("/bin/test");
    let (config_parser, mut config) = get_config_parser_and_config(format!(
        "[{job_name}]
             command={command}
             stderr_logfile=",
    ));
    config.parse_content_of_parserconfig(config_parser)?;
    let job: &Job = config.map.get(&job_name).unwrap();
    assert_eq!(
        *job,
        Job {
            command,
            stderr_file: Job::default().stderr_file,
            ..Default::default()
        },
    );
    Ok(())
}

#[test]
fn tests_umask_ok() -> Result<()> {
    let job_name: String = String::from("test");
    let command: String = String::from("/bin/test");
    let (config_parser, mut config) = get_config_parser_and_config(format!(
        "[{job_name}]
             command={command}
             umask=012",
    ));
    config.parse_content_of_parserconfig(config_parser)?;
    let job: &Job = config.map.get(&job_name).unwrap();
    assert_eq!(
        *job,
        Job {
            command,
            umask: Some(0o12),
            ..Default::default()
        },
    );
    Ok(())
}

#[test]
fn tests_umask_too_much_char() -> Result<()> {
    let job_name: String = String::from("test");
    let command: String = String::from("/bin/test");
    let (config_parser, mut config) = get_config_parser_and_config(format!(
        "[{job_name}]
             command={command}
             umask=01234",
    ));
    let val: Result<()> = config.parse_content_of_parserconfig(config_parser);
    assert!(matches!(val, Err(Error::CantParseEntry { .. })));
    assert!(config.map.is_empty());
    Ok(())
}

#[test]
fn tests_umask_value_too_big() -> Result<()> {
    let job_name: String = String::from("test");
    let command: String = String::from("/bin/test");
    let (config_parser, mut config) = get_config_parser_and_config(format!(
        "[{job_name}]
             command={command}
             umask=019",
    ));
    let val: Result<()> = config.parse_content_of_parserconfig(config_parser);
    assert!(matches!(val, Err(Error::CantParseEntry { .. })));
    assert!(config.map.is_empty());
    Ok(())
}

#[test]
fn tests_environment_ok() -> Result<()> {
    let job_name: String = String::from("test");
    let command: String = String::from("/bin/test");
    let (config_parser, mut config) = get_config_parser_and_config(format!(
        "[{job_name}]
             command={command}
             environment=A=\"1\",B=\"2\"",
    ));
    config.parse_content_of_parserconfig(config_parser)?;
    let job: &Job = config.map.get(&job_name).unwrap();
    assert_eq!(
        *job,
        Job {
            command,
            environment: Some(env_map(&[
                ("A", "1"),
                ("B", "2")
            ])),
            ..Default::default()
        },
    );
    Ok(())
}

#[test]
fn tests_environment_nothing_between_comma() -> Result<()> {
    let job_name: String = String::from("test");
    let command: String = String::from("/bin/test");
    let (config_parser, mut config) = get_config_parser_and_config(format!(
        "[{job_name}]
             command={command}
             environment=A=\"1\",,B=\"2\"",
    ));
    let val: Result<()> = config.parse_content_of_parserconfig(config_parser);
    assert!(matches!(val, Err(Error::CantParseEntry { .. })));
    assert!(config.map.is_empty());
    Ok(())
}

#[test]
fn tests_environment_equal_between_double_quotes() -> Result<()> {
    let job_name: String = String::from("test");
    let command: String = String::from("/bin/test");
    let (config_parser, mut config) = get_config_parser_and_config(format!(
        "[{job_name}]
             command={command}
             environment=A=\"1\",B=\"2=5\"",
    ));
    config.parse_content_of_parserconfig(config_parser)?;
    let job: &Job = config.map.get(&job_name).unwrap();
    assert_eq!(
        *job,
        Job {
            command,
            environment: Some(env_map(&[
                ("A", "1"),
                ("B", "2=5")
            ])),
            ..Default::default()
        },
    );
    Ok(())
}

#[test]
fn tests_environment_quote_in_value() -> Result<()> {
    let job_name: String = String::from("test");
    let command: String = String::from("/bin/test");
    let (config_parser, mut config) = get_config_parser_and_config(format!(
        "[{job_name}]
             command={command}
             environment=A=\"1\",B=\"\"\"",
    ));
    config.parse_content_of_parserconfig(config_parser)?;
    let job: &Job = config.map.get(&job_name).unwrap();
    assert_eq!(
        *job,
        Job {
            command,
            environment: Some(env_map(&[
                ("A", "1"),
                ("B", "\"")
            ])),
            ..Default::default()
        },
    );
    Ok(())
}

#[test]
fn mod_empty_command() -> Result<()> {
    let (config_parser, mut config) = get_config_parser_and_config(String::from(
        "[test]
             command:",
    ));
    assert_eq!(
        config.parse_content_of_parserconfig(config_parser),
        Err(Error::CantParseEntry {
            entry_name: String::from("test"),
            e: Error::FieldBadFormat {
                field_name: "command".into(),
                msg: "Field is empty".into()
            }
            .to_string(),
        })
    );
    assert!(config.map.is_empty());
    Ok(())
}
