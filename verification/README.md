# clam_onaccess

A daemon that has files scanned by `clamd` before other processes may open them.
The kernel reports each attempt to open a file through fanotify and waits for an
answer.

- `src/` is the library: what is decided, with contracts that Verus proves.
  - `config`: the settings, the configuration, the pid file of `clamd`
  - `mount`: which mounts are watched for the configured directories
  - `job`: the requests, from their arrival to the one answer that each gets
  - `scan`: the conversation with `clamd` and what its replies mean
  - `pool`: which connections can be used again
  - `path`, `text`, `errno`: Unix paths, numbers and text, error numbers
- `app/` is the program: arguments, files, sockets, the tasks of the runtime. It
  does what the library asks for and reports how it went.
- `tests/` runs the library on concrete values.

The library relies, without proof, on what the doc comments marked "Trusted" say
of `nix`, `inotify` and the standard library.
