# CPU-Grid

A monitor of a Linux machine in the terminal: the frequencies of the cores,
temperatures, memory and compressed swap, network interfaces, storage, and how
long the user has been idle, each in the colour of its load, with the highest
values seen so far.

The logic is a library written in Rust and proved with Verus. The program around
it reads files, runs threads and writes to the terminal.

## Layout

- `src/binary64.rs`: correctly rounded binary64 numbers on plain integers, which
  all speeds, loads and temperatures are
- `src/decimal.rs`, `src/text.rs`, `src/layout.rs`, `src/grid.rs`: numbers as
  text, cutting up and measuring text, rules and grids
- `src/units.rs`, `src/color.rs`: how sizes, speeds and times are written, and in
  which colour
- `src/peaks.rs`, `src/rates.rs`, `src/span.rs`: the highest values and how they
  strobe, the rates of counters, and lengths of time
- `src/order.rs`, `src/table.rs`: things in order, and values under names
- `src/cli.rs`: the command line
- `src/hardware.rs`, `src/thermal.rs`, `src/memory.rs`, `src/network.rs`,
  `src/storage.rs`, `src/idle.rs`: what is read of the machine
- `src/state.rs`, `src/render.rs`: what the monitor knows, and its screen
- `app/`: the program: threads, files, other programs and the terminal
- `tests/`: tests of the library

Functions whose names begin with `law_` state what holds of the library as a
whole: that peaks never fall, that intervals stay within their bounds, that
interfaces are reported when they come and go, that the screen fits the terminal,
and so on.

## Options

Values are in seconds and are held between the bounds.

- `-n, --cpu-stats-interval <secs>`: processor (0.1 to 60, default 2)
- `-r, --room-temp-interval <secs>`: room temperature (1 to 3600, default 2)
- `-m, --mem-stats-interval <secs>`: memory (0.5 to 60, default 2)
- `-t, --net-interval <secs>`: network (0.5 to 60, default 2)
- `-d, --disk-interval <secs>`: storage (0.5 to 60, default 2)
- `-h, --help`: prints help
- `-v, --version`: prints the version

`temper-poll` is used for the temperature of the room where it is installed, and
`busctl` or `xprintidle` for the idle time of a desktop.
