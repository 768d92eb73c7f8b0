# RzBridge

A bridge between the Roomzin routing layer and the nodes of one shard. Routers
send it frames; it sends writes to the shard's leader and reads to its
followers, and hands the responses back.

- `src/` is the library: the frames, the server's decisions on the bytes of a
  connection, the connection pools and their rotation, the retries of a
  request, topology discovery, and what is said to RzID and RzPoint. Every
  function states what it does, and Verus proves it. What is taken for granted
  is said beside the few wrappers around functions of `bytes`, `num_cpus` and
  `std`. The modules that end in `_laws` state what holds of several functions
  together.
- `app/` is the program around it: command line, runtime, sockets, HTTP,
  metrics and logs.
- `tests/` runs the library on concrete values.
