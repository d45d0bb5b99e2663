# protohax

Servers for a set of small network protocols, written and proved in Verus.

`src/` is the library. It holds the rules of each protocol as state machines
over plain values, with contracts that say what every message is answered:

- `smoke`: an echo service.
- `primes`: which numbers are prime, asked and answered a line at a time.
- `means`: averages of prices over time, in nine-byte messages.
- `chat`: a chat room with lines of text.
- `udp`: a key/value store that is accessed by datagrams.
- `speed`: tickets for cars that drive too fast, from cameras to dispatchers.
- `line`: a line reversal service over a session protocol of its own on UDP.
- `lrcp`: the packets of that session protocol, taken apart.
- `bytes`, `table`, `text`: what the others share.

What should hold of a protocol as a whole is stated in public proof functions
whose names start with `law_`.

`app/` is the program around the library: sockets, channels, timers and logs.
Its first argument names the server to run. `tests/` runs the library on
concrete values.
