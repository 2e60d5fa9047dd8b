# Konnect

Konnect is a toolbar application that keeps Kubernetes port forwards for several clusters
running at once, and gives each a local name: `<cluster>.<service>.localhost`, behind one
proxy port. A service whose protocol names no host gets a port of its own with `local_port`.

- `src/` is the library. Everything in it is verified: the rules for configurations, the
  forwards that follow from them, routes and host names, the table of running forwards, the
  reading of request heads, the retries, and the menu. `src/laws/` states what holds of the
  library as a whole.
- `app/` is the program around it: the command line, files, `kubectl`, sockets, and the macOS
  toolbar.
- `tests/` runs the library on concrete values.

The library trusts four functions of `std`: `String::push`, `std::str::from_utf8`,
`String::from_utf8_lossy`, and the debug formatting of text. Each is named where it is declared.
