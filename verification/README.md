# grove

Give every git worktree its own running dev stack: its own ports, its own env files,
its own database, so several tickets can be worked in parallel without colliding.

The crate is in two parts.

- `src/` is the library, written in Verus. It holds grove's decisions: how a
  worktree is resolved and named, how port blocks are allocated and reserved, how
  templates and env files are rendered, the environment a command runs with, when a seed's
  marker still holds, what `up`, `down`, `seed`, `status`, `ls`, `prune`, `doctor` and a sweep decide and print,
  and what is said about a crowded machine. Each function carries a contract, and the
  properties that span functions (a reservation is stable, reservations never
  overlap, overrides reach the environment, a sweep spares the caller, and so on)
  stand as proof functions whose names begin with `law_`.
- `app/` is the `grove` command: argument parsing, files, processes, Docker, HTTP
  probes and the load average. It asks the library for every decision and hands it
  plain values.

`tests/` exercises the library on concrete values.
