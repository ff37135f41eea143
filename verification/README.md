# initd

A small init system. The library (`src/`) holds everything that reads, decides or
decodes, each function with a contract that is proved:

- `config`: configuration files (`key = 'value'`, arrays, `[table]` names) read into a
  map from keys to strings or arrays.
- `service`: service files read into `(key, value)` pairs and into a `Service`.
- `walk`: starting a service after the services it requires and wants, as a step
  function driven by the caller, with a proof that it ends as the recursive start does.
- `run`: running a service after the services it requires, likewise.
- `netlink`: netlink addresses, device events, link messages, `poll` reports.
- `linux`: system call return values, the capability bounding set, C strings, wait
  statuses.

The program (`app/`) does the I/O: files, sockets, system calls through `libc`, and the
loops that answer the step functions.
