# task_master

A job control daemon in the manner of supervisor: a server runs the programs
that a YAML configuration file describes, each as a group of threads that
watch one process each, and a client sends it commands (`start`, `restart`,
`stop`, `status`, `reread`, `reload`, `shutdown`) over TCP.

The library in `src/` is verified with Verus:

- `text`: splitting, whitespace, decimal numbers.
- `yaml`: the YAML nodes the configuration is read into; YAML itself is read
  by `yaml-rust`.
- `tm_mod::cmd`, `cli`: reading a typed line into a command, and help texts.
- `tm_mod::config`, `tm_mod::config_file`: a program's options with their
  defaults, and a configuration file into services, refusing every ambiguous
  name.
- `tm_mod::service`, `tm_mod::supervisor`: the table of services, where an
  instruction goes, and what launching or reading the configuration anew does
  to the table and to the threads; `tm_mod::thread_table` proves that those
  actions take the threads exactly to the new table, for a launch, a reread
  and a reload alike.
- `tm_mod::service::thread::process`: what the watch of one process decides
  from what polling found.
- `server`: the daemon's command line and its answers.
- `task_master`, `runner`: the simpler first supervisor and a runner that
  starts every program once.

`app/` holds the executables around it (daemon, client, runner): sockets,
threads, processes, signals and the JSON form of a command.
