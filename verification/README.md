# igrf

Control of a three-axis Helmholtz cage, verified with Verus: calibration and
filtering of the magnetometer, the PID loop and its watchdog, the slew-limited
setpoint and its sources, the controller's and the sensors' wire formats, the
WMM2025 field model, satellite tracking, and the files and panels around them.

Every field value is in nanotesla.

- `src/` is the library. Each function states what it returns or changes; the
  functions named `law_...` state what holds across functions, such as that
  nothing reaches the coils through a fault, that no packet leaves the range the
  controller's firmware acts on, or that a ramp keeps to its rate.
- `tests/` runs the library on concrete values.
- `app/` is the desktop program: the window, the ports, the sockets, the database
  and the settings file. It also hands the library the machine's sine, cosine, arc
  tangent and arc sine, which are taken as functions; see `src/angle.rs`.

Floating-point numbers are held as their bit patterns and calculated with integer
arithmetic; `src/double.rs` and `src/arithmetic.rs` say what each operation
rounds to.

What the library calls outside itself stands behind functions marked
`external_body`, each with a comment that says what it relies on: `sgp4` in
`src/propagation.rs`, `chrono` in `src/satellite.rs`, `serde_json` in
`src/spacetrack.rs`, and four functions of the standard library in `src/text.rs`
and `src/setpoint.rs`.
