# cyd-companion

A verified library for the PC companion of CYD (ESP32-2432S028) SHA-256
mining boards, and a small command-line program around it.

- `src/` — the library, verified with Verus:
  - `text`, `codec`, `json`, `target`: characters and strings, hex and
    SHA-256 (through the `hex` and `sha2` crates), a JSON value model,
    share targets;
  - `stratum`, `client`: block-header jobs and the Stratum session (subscribe,
    authorize, notify, submit) as a state machine over parsed messages;
  - `miner`, `fleet`: worker names, firmware versions, `cmp` replies, and the
    decisions of the mining loop (reply waits, share harvesting and holding,
    status polls, Wi‑Fi commands);
  - `workers`, `discovery`, `ports`: board identities, port names, beacons,
    probes and the merged worker list; serial ports through `serialport`;
  - `monitor_api`: pairing links (QR through `qrcode`, secrets through `rand`),
    the token gate and request routing of the phone monitor;
  - `update`: which kind of firmware update a target takes, and update
    progress lines.
- `tests/` — tests of the library on concrete values.
- `app/` — the program: serial and TCP links, the pool socket, UDP discovery,
  the monitor's HTTP server and the mining loop. The loop keeps its own
  timing (how often it polls and reports); what it does with jobs, shares,
  replies and status it asks the library.
