# reverse_tool

A policy-routing orchestrator for hosts that are on a lab LAN and on the Internet at once. It
decides by destination which interface traffic takes: destinations that the configuration
authorizes go through the LAN, by routes in an isolated table and behind a firewall that drops
everything else on the LAN; all others take the normal path. Where the LAN fails, its traffic is
dropped and never leaks to the normal path.

The decisions are a library that Verus verifies; the programs around it do the I/O.

- `src/` is the library. Sessions that need the host (filtering an interface, reconciling the
  routing tables, putting a policy in force) are state machines: each tells the next command or
  action, takes what came of it, and ends with a result.
- `app/` holds the programs `reverse-tool` and `reversed`: command line, files, sockets, processes.
- `tests/` runs the library on concrete values.

## The library

| Modules | What they hold |
| --- | --- |
| `config`, `env`, `strict` | the configuration, the settings of an environment file, and what the strict policy accepts |
| `classifier`, `detector`, `policy`, `planner`, `health` | roles and targets, discovery, decisions and routes, differences, path health |
| `guarantees` | what holds of every decision and every set of routes |
| `firewall`, `egress`, `cleanup` | the rules of a chain, putting a filter in place, taking all filters away |
| `netlink`, `tables`, `process`, `capabilities`, `probe`, `dns` | what the programs of the host are asked, and what their output means |
| `state`, `reconcile` | what is remembered, and bringing the host to a desired state |
| `rpc`, `daemon`, `apply`, `activation`, `lifecycle` | requests, probes, putting the policy in force, and the life of the daemon |
| `capture`, `doctor`, `display` | endpoints of a command, checks of the host, what is shown |
| `net`, `names`, `text`, `strings`, `seqs`, `error`, `model` | addresses, maps by name, text, sequences, errors, shared types |

Functions whose names begin with `law_` state what holds across functions, for all inputs.
