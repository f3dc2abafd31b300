# pm

A package manager's decisions, verified with Verus: which packages a build file
needs and in what order they are built, what a build may reach while it runs, what
is shown of its progress, what crosses a process boundary, and what a traced program
was seen doing.

`src/` is the verified library. Every function states what it returns in `requires`
and `ensures`, and every module that has something to say about several calls at once
says it in a public proof function. Paths are byte strings and messages are sequences
of characters, so contracts speak of exactly what is produced.

| module | what it decides |
| --- | --- |
| `graph` | walking build files depth first: diamonds, cycles, clashing archives |
| `schedule` | what is ready, what is running, what is skipped after a failure |
| `bf`, `step`, `policy`, `context` | build files and the layout of a package |
| `sandbox` | mounts of the jail, toolchain directories, finding programs |
| `download`, `cancel` | receiving a body, its digest, stopping in between |
| `progress` | the tree of lines, how a line is rendered, what a redraw does |
| `perms` | permission profiles, decoding system calls, the steps of the tracer |
| `wire` | diagnostics within a budget, length-prefixed frames |
| `path`, `text`, `report` | components of paths, characters and numbers, failures |

What a few outside functions return is taken on trust: those of `ring` that compute a
digest, those of `hakoniwa` that configure a container and a command, those of `minreq`
that prepare a request, the error texts of `nix`, and a handful of the standard
library's. Each is wrapped once and says so above it.

`app/` is ordinary Rust around the library: the `pm-trace` program, file and network
I/O, threads, terminals and `ptrace`. `tests/` run the library from outside.
