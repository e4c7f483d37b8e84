# faalsink

A one-way file synchroniser. A client compares the current directory with what
a server has and sends what differs; the server keeps a copy of the client's
tree under `received_files/`.

`src/` is the verified library:

- `paths`, `path_laws`: paths as text, as on Unix, and what joining and stripping do to them
- `file_scanner`: from the entries of a directory walk to files and manifests
- `manifest`: paths with their hashes
- `listing`: what a manifest says of the tree that was walked
- `digest`: hashes of contents (BLAKE3)
- `wire`: contents in compressed, framed pieces (LZ4)
- `protocol`: the messages
- `network`: the server's side of a session
- `receiver`: the reception of one file
- `client`: what a client sends
- `convergence`: what a whole sync amounts to

`app/` holds the two programs around it: sockets, files, JSON and logging.
`faalsink` runs the server, and `faalsink client` the client. Both read the
shared token from `SYNC_SHARED_SECRET`, and log to stdout and, as JSON, to files
under `logs/`. They build on Unix only: the guard that keeps received paths
inside `received_files/` takes paths apart by Unix rules.
