# Bandwidth Proxy

A TCP proxy for one machine that limits bandwidth in each direction, with a window to
set it up and watch it.

- `src/` is the library: every rule of the proxy, stated in contracts and proved with
  Verus. It performs no I/O. Where work has to be done outside, a function says what is
  to be done next and another takes what came of it. Times are nanoseconds on one clock.
  Rates and transfer times are counted in double precision, which `double` builds from
  whole numbers.
  - `gate`, `relay`, `server`, `proxy`: forwarding, its limits and its counters.
  - `settings`, `editor`: saved profiles and the form in front of them.
  - `session`, `graph`: one run, its history, and what a graph of it shows.
  - `window`, `labels`, `theme`: what the window shows and what its controls do.
  - `text`, `address`: numbers, white space and IPv6 addresses in text.
  - `double`, `round`, `natural`, `power`: numbers of double precision, round numbers,
    whole numbers of any size, and powers.
- `app/` is the program: sockets, timers, files and the window itself.
- `tests/` runs the library.
