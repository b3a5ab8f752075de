# pi-garage-monitor

A garage climate monitor for a Raspberry Pi. A BME280 measures temperature,
humidity and pressure; readings go to SQLite; a small dashboard shows them,
warns of condensation and frost, and pushes alerts.

- `src/` is the library, verified with Verus: how measurements compare
  (`double`), the stored tables and what is asked of them (`rows`, `table`,
  `days`, `db`), the risk rules (`level`, `weather`), when an alert goes out
  (`notify`), the measuring cycle (`cycle`, `sensor`), the kernel's status
  files (`text`, `system`), the requests of the dashboard (`web`), the clock
  and the data bus (`clock`, `bus`).
- `app/` is the daemon around it: the SQLite file, the I2C bus, HTTP, threads,
  and floating-point arithmetic.
- `tests/` runs the library on concrete values.

A measurement is held as the 64 bits of a double. The library compares such
values exactly; sums, averages and the dew-point formula are left to the
daemon, which hands their results in.

Run `pi-garage-monitor --mock` to try it without hardware. With `--latitude`
and `--longitude` it polls Open-Meteo for outdoor weather, and with
`--ntfy-url` it pushes alerts to an ntfy topic.
