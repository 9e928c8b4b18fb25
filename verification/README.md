# ehosts

A local DNS proxy that answers the names matching the rules of a hosts file
(`#$ <address> <pattern>...` lines, the patterns being regular expressions)
and forwards every other query upstream.

The library in `src/` is verified with Verus:

- `reader`, `writer`: big-endian reads from a byte buffer and writes into a
  buffer of fixed capacity.
- `message`: the message types and what each stands for.
- `decode`: reading a message, names with compression pointers included;
  a pointer loop or any malformed part makes the read fail.
- `encode`: writing a message into 512 bytes.
- `exchange`: a query made a response, and the bytes sent over UDP or TCP.
- `dns`: messages kept as the raw bytes of each field.
- `laws`: what writing and reading give back of each other.
- `rules`: the rules of the hosts file and answering a query from them.
- `resolv`: pointing the resolver configuration at the local server.
- `ports`, `text`: a random port for upstream queries, and character helpers.

`app/` holds the program: arguments, sockets, threads and files.
