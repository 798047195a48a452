# http3bench

A load generator for HTTP/3 echo servers, and the echo server that goes with it.
The client dials a number of connections, sends requests over them and waits for
the same bytes to come back, and reports latencies, errors, and what processor
time and memory the server took. Three benchmarks: Connections (dial them all),
BenchEcho (round trips, one at a time on each connection) and BenchMultiplex
(batches of requests at a steady rate).

## Layout

- `src/` is the library. All of it is verified with Verus. It decides what to do
  and computes what is reported. It opens no sockets, and reads the clock only to
  stamp the lines of the log; the times that it works with are handed to it.
  - `engine/` is the client: `model` says what a worker is and what each event does
    to it, `worker` does it, `laws` is what every worker keeps to, `trace` what
    holds of it, and of the workers together, over all that happens, `slots` what
    holds of its slots, `tick` what holds of a tick of BenchMultiplex, `conn` one
    connection, `gather` and `limiter` what the workers share, `setup` how
    connections are configured.
  - `server/` is the echo server: `exchange` answers requests, `ids` finds the
    connection of a datagram, `worker` is one thread of it, `setup` its flags,
    ports and certificate.
  - `stats`, `fixed`, `report` are latencies and how they are written.
  - `flags`, `duration`, `settings` are the command line.
  - `config`, `plan` are addresses, ports, and how work is split.
  - `procstat`, `ps`, `control` are how the server's process is watched, here or
    from another machine.
  - `timers`, `order`, `text`, `words`, `clock`, `random`, `logging` serve the rest.
- `app/` runs it: sockets, threads, files, QUIC, and floating-point figures.
- `tests/` holds the tests of the library.

## Times, counts and trust

Times are nanoseconds since a start that the caller picks. Processor percentages
are the bit patterns of doubles, ordered as doubles are.

Functions that call into other crates or into parts of the standard library that
Verus knows nothing of say so in their doc comments, with what is believed of the
call: `clock`, `text`, `stats`, `ps`, `logging`, `random`, `engine::conn` and
`server::setup` each have some.
