# taskmaster

A job supervisor: it reads an INI configuration file whose sections describe
programs to run, starts them, restarts or stops them on request, and reloads
its configuration on `SIGHUP`. Clients send commands such as `start web` or
`stop web:2` over a local TCP port.

## Configuration fields

- `command`: `program [arguments]`
- `numprocs`, `startsecs`, `startretries`, `stopwaitsecs`: numbers
- `autostart`: `true | false`
- `autorestart`: `never | unexpected | always`
- `exitcodes`: `numeric[, numeric...]`, each from 0 to 255
- `stopsignal`: `hup | int | quit | kill | usr1 | usr2 | term`, in any case
- `stdout`, `stderr`, `workdir`: one word each
- `environment`: `key=value[, key=value...]`; a key loses the whitespace
  before it, a value its surrounding double quotes
- `umask`: three octal digits, such as `033`

## Layout

- `src/` is the library, verified with Verus: text handling (`text`), an
  insertion-ordered string map (`strmap`), the job settings (`job`), the
  parsers of a section and of client commands (`parse`), the configuration
  and its reload (`config`), the error type (`error`), and properties that
  hold for every input (`laws`).
- `app/` is the daemon around it: loading the file, the TCP server, signals,
  the log file and the child processes.
- `tests/` runs the library on concrete inputs.
