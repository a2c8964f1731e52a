# rustiferin

An ambient-light agent: it captures the screen, reduces every configured zone to one colour,
corrects and smooths the colours, and publishes them to an LED controller over MQTT.

`src/` is the core, written in Verus. Every function states in its contract what it returns, and
the laws that tie functions together are public proof functions.

- `float`: IEEE 754 single precision on bit patterns, each operation specified by the exact
  number that it rounds.
- `pipeline`: zones, averaging in linear light, dominant colour, colour correction, smoothing,
  and the pipeline that runs them; `laws`, `color_laws`, `hsl_laws`, `solid` and `majority` hold
  what is proved of the whole.
- `config`: the settings, their validation, broker addresses and where files lie.
- `output`: the wire format and the state machine of the publisher.
- `capture`: frames and their pool, the portal's retry policy, and the direct capture path.
- `power`, `tray`, `shutdown`, `stats`, `app`, `backoff`, `runtime`, `text`: the rest of the
  agent's decisions.

`app/` is the program round the core: argument handling, files, sockets, threads and the desktop
services. The transfer tables and the gamma table are filled there, as they need powers that
single precision arithmetic alone does not give.

`tests/` runs the core on concrete values.
