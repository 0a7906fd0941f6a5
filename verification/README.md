# turmoil

A verified library for testing distributed systems in a simulated network and on
simulated disks. Its hosts have addresses, names, sockets and a clock; its links delay,
hold, lose and deliver messages; its disks tell what is durable from what a crash loses.
The functions of the library have contracts, which Verus proves. What it calls in other
crates stands behind small wrappers whose contracts are believed, not proved; the sources
of random numbers promise no more than what holds of every draw.

## Layout

- `src/` is the library.
  - `sim`, `world`, `rt`, `builder`, `config`: a simulation and how it moves on, step by
    step, from what the software of its hosts did.
  - `top`: the links between the hosts. `host`, `kernel`, `net`: the sockets of a host.
  - `dns`, `ip`, `addr`, `text`, `pattern`: names, networks and addresses, and how they
    are written.
  - `fs`: a filesystem. `fs/model` says what it is: the disk that programs see, the disk
    that survives a crash, and the operations that are pending. The bytes of each file
    that programs see are the durable ones with the pending operations carried out.
    `fs/laws` states what holds of the filesystem as a whole.
  - `connection`, `inbox`, `barriers`, `log`, `workload`, `partition_logger`: the parts
    that tests use.
  - `collections`, `ordered`, `pattern`, `random`: what is called in other crates, each
    function with what is believed of it.
- `app/` is ordinary Rust around the library: the runtimes on which software runs, the
  random draws, thread-local state, and the traits of tokio and std on its own types.
- `tests/` runs the library.

Where chance decides, the library takes the decision as an argument (`Fate`, `Chance`,
`Pace`), and its contracts hold for every decision.

Laws that relate several functions are public proof functions whose names start with
`law_`.
