# sminit

A small service manager. Service definitions are YAML files `<name>.yaml` (or
`<name>.yml`) in one directory; each names a command, a health check, and the
services it waits for (`after`). The manager registers the definitions, starts
each service once every service it waits for has reported healthy, and can
stop, start, add and delete services. Only the first healthy report of a
service since it was last started counts, and it starts only those dependents
that are not running already; stopping a service ends its process.

Layout:

- `src/` — the verified library (Verus):
  - `service.rs`: service definitions, run-time state, and the decisions taken
    while a service runs;
  - `reader.rs`: service names from file names, which file defines a service,
    and the definitions of a directory, from what the file system reported;
  - `tracker.rs`: the registry of services, with the dependency graph and the
    stop channels, and its consistency invariant;
  - `runner.rs`: starting, stopping, registering, and reacting to healthy
    services;
  - `manager.rs`: the manager's requests and its handling of service signals;
  - `laws.rs`: properties that relate several operations;
  - `channel.rs`: the tokio channel types and functions the library relies on.
- `app/` — the program around it: file system access, YAML decoding, the
  asynchronous runtime, processes and logging.
- `tests/` — tests of the library.
