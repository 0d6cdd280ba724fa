# kvs

A log-structured key/value store. Every `set` and `rm` appends a JSON record to the log
file `kvs.log` of the store's directory; an in-memory index maps each live key to the
offset and length of the record that holds its value, and `get` reads that record back.
Replaying the log rebuilds the index when the store is opened.

- `src/` is the library, verified with Verus: the commands, the index, the store's state
  machine (`kv.rs`: opening from a replayed log, `set`, `get`, `remove`, the compaction
  trigger), the log file's path, the parsing of `IP:Port` addresses, the server's engine
  check and the replies it sends, with the laws that tie them together.
- `app/` holds the three programs (`kvs`, `kvs-server`, `kvs-client`, chosen by the name
  the binary runs under): files, sockets, the command line, logging, and the JSON
  (de)serialisation of commands.
- `tests/` runs the library on concrete values.
