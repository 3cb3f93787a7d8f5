# telemetry_client

Client for the telemetry of a solar car: it decodes the stream that the car sends over a serial
radio, stores the signals, shows them live or from a recording, and flashes firmware to the
boards of the car over the same link.

The logic is a library verified with Verus; the window, the database and the serial ports are
ordinary Rust around it.

## Layout

- `src/` is the library.
  - `decoder/`: framing of the stream (`frame`), CAN definitions and bit fields (`can_config`),
    details of battery faults (`faults`), decoding of frames into samples (`decode`).
  - `fota/`: the update protocol (`protocol`), its serial framing (`serial`), reliable delivery
    (`delivery`), the jobs that flash and start boards (`client`), what the worker decides
    (`worker`), and the state of the update tab (`tab`, `fields`, `shared`, `image`, `nodes`,
    `names`, `config`).
  - `dashboard/`: setups and panels (`config`, `panels`), series and what is drawn of them
    (`series`, `charts`), colors (`color`), the tab itself (`tab`).
  - `signal_table`, `cells`, `replay`, `settings`, `session`, `config`, `store`: the other tabs
    and what they read.
  - `text`, `bytes`, `number`, `rounding`, `labels`, `readout`, `clock`: what the rest is built
    from.
- `tests/` runs the library.
- `app/` is the program: the window, the database, the serial ports, the worker threads.

## Conventions

- A contract speaks of the view of a value: strings are sequences of characters, lists are
  sequences, tables are maps.
- A floating-point number is held as its bits (`number::Number`). The library orders such
  numbers and takes their integer part, and it divides and multiplies whole numbers with the
  rounding of double precision (`rounding`). Where a result needs other arithmetic, the library
  hands out its parts or takes the result in.
- An update job does no input or output. It hands out one request at a time and is told what
  came of it.
- Public proof functions whose names begin with `law_` state what holds across functions.

## What is not proved

The library relies on the contracts of a few outside functions, each stated in the doc comment
of the function that makes the call: `crc32fast::hash`, three functions of `chrono`,
`egui::Color32::from_rgba_unmultiplied`, `char::to_uppercase` and `String::push`.
