# mementocached

A sharded in-memory key-value server. Clients send get, set and delete
requests over TCP; each database worker owns the keys that hash to its index
and holds them in a table of its own.

- `src/` is the verified library (Verus):
  - `kv`: the request and reply messages;
  - `protos`: their protobuf encoding, written and read through the protobuf
    runtime, with the read-back laws;
  - `command`: the store of one worker (`DB`) and what each action does to it
    and answers, with the laws of the store;
  - `connection`: the length-prefixed framing, as an encoder and as a reader
    fed with the bytes of the socket, with the read-back laws;
  - `runtime::db`: which worker owns a key, how a request is routed, and the
    law that the workers together behave as one store;
  - `client`: the rounds of requests of the load client.
- `app/` is the server and the client around it: sockets, threads, tokio
  runtimes, Prometheus metrics and the HTTP endpoint.
- `tests/` runs the library.
