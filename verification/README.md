# Pi sandbox broker

A broker that runs commands in the sandbox of the host: Seatbelt on macOS,
Bubblewrap on Linux. It reads framed requests from its input, runs one command at a
time and writes framed events to its output.

`src/` is a library that is verified with Verus. It decides everything: which
requests are accepted, what a command may read, write and reach, which arguments and
filters the sandbox is started with, when processes are signalled and which events
the client gets. `app/` is the program around it: it asks the host for facts, starts
processes and moves bytes.

The library never touches the host. A decision that depends on the filesystem reads
it through `Facts`, a record of what the host was asked so far. Where a fact is
missing, the decision stops and names it; the program looks it up and asks again.
More facts never change a decision that was reached.

| Modules | What they decide |
| --- | --- |
| `protocol`, `framing`, `broker`, `readiness` | the messages of the channel and the answers to requests |
| `validation`, `seatbelt`, `hard_policy`, `globs` | which requests are accepted, with which rights and denies |
| `profile` | the profile of a Seatbelt sandbox |
| `scan`, `expansion`, `mounts`, `linux`, `bubblewrap` | the mounts of a Bubblewrap sandbox |
| `seccomp`, `launcher` | what a command on Linux may ask of the kernel |
| `command`, `command_run`, `executor`, `lifecycle`, `output` | the life of one command |
| `denial_log`, `denial_collector`, `pid_tracker` | the denials and the processes of a command |
| `guarantees`, `resolution_laws`, `mount_order`, `scan_laws`, `scan_bounds`, `launch_laws` | what holds of all of them |
| `text`, `words`, `numbers`, `paths`, `order`, `environment`, `facts` | what the others are made of |
| `outside` | the calls into other crates |
