# lb

A layer-7 load balancer and the benchmark that compares the ways to run it.

The library in `src/` holds what the proxies and the harness decide, with every
function's behaviour stated in its contract and proved by Verus:

- `lb_core` — route tables, weighted backend selection, header and path filters,
  hop-by-hop hygiene, the request as it goes upstream, and the Gateway API state of a
  cluster compiled into routes;
- `proxy_native` — the io_uring data plane: HTTP/1 heads, framing of chunked bodies,
  registered buffers, and the connection state machine behind its event loop;
- `proxy_monoio` — the thread-per-core data plane: HTTP/1 heads, sniffing of HTTP/2,
  the pool of idle connections, and the session that relays requests and responses;
- `proxy_hyper` — settings and answers of the data plane over Hyper;
- `bench` — candidates, scenarios, system limits, latency recording, the `kind`
  cluster, profiling and reports;
- `text` and `wire` — strings and HTTP heads as sequences.

`app/` is the program around it: sockets, runtimes, files, processes and the
command line. `tests/` exercises the library from outside.
