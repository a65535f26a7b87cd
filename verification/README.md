# zhtta

The logic of a small multi-threaded web server (Zhtta) and of the little
shell it uses for server-side includes, as a verified library, with the
server program around it.

- `src/text.rs`: byte searching, prefixes, decimal numbers (format and parse).
- `src/queue.rs`: static-file requests and the priority queue that serves the
  highest priority first.
- `src/cache.rs`: the cache of static files, a map from path to content.
- `src/dynamic.rs`: server-side includes (`<!--#exec cmd="..." -->`).
- `src/argv.rs`: command lines: arguments, pipelines, redirections.
- `src/server.rs`: routing of requests, the responses, request priorities,
  peer names and the server's settings.
- `app/main.rs`: sockets, threads, files and processes.
