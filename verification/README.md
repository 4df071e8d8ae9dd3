# threadctl

A task policy engine for Android and Linux: users say in a KDL file on which
CPUs, with which scheduling class and with which clamps the threads of an app
are to run, and the daemon keeps it so.

- `src/` is the engine. It is written in Verus: what each function returns or
  changes is stated in its contract and proved. It reads no file and calls no
  kernel interface; it takes what was read and says what is to be done.
- `app/` is the daemon around it: files, system calls, sockets, threads and
  the event sources.
- `tests/` run the engine on concrete values.

The modules of the engine, from the configuration to the kernel:

| | |
|---|---|
| `kdl_parser`, `config`, `profile`, `warning`, `store` | reading a configuration, profiles, the rules it comes to, replacing it |
| `ruleset`, `merge` | which rules apply to a thread and the policy they merge into |
| `tracker`, `engine`, `policy`, `backend` | the processes that are followed, and applying policies to their threads |
| `proc_source`, `ebpf_source`, `ebpf_filter`, `pending`, `event` | events from the process table and from the kernel |
| `decision`, `system_context`, `relock`, `audit`, `observe` | when policies are applied again, and what was seen |
| `topology`, `proc`, `capability`, `caps`, `foreground`, `tune` | the machine |
| `ipc`, `scene`, `daemon`, `pool`, `i18n`, `debug` | the program |
| `text`, `ratio`, `tally` | shared by the others |

What is proved rests on a few declarations about other crates and the standard
library, each with a comment that says what it claims: `lowercase` and
`String::push` in `text`, `decode` in `proc`, `read_document` and `error_text`
in `kdl_parser`.

Properties of several functions together are proof functions whose names begin
with `law_`.
