# blog

The core of a small web framework, verified with Verus.

- `src/path.rs` splits a request path into segments and names parameter segments (`:name`).
- `src/mstruct.rs` is a router that tries its routes in registration order.
- `src/redixtree.rs` is a radix tree of routes, stored once read from the front and once from the back;
  `src/routes.rs` describes the route tables such a tree stands for and how a request walks them.
- `src/process.rs` matches a request against a tree by literal segments only.
- `src/params.rs` holds the parameters a route takes from a request.
- `src/net_connect.rs` decides each step of a non-blocking TCP connect that is driven by polling.
- `src/weather.rs` and `src/structs.rs` build the request for the current weather and describe its answer.

`app/` is the program around the library: reading `config.toml`, fetching the weather with reqwest,
answering HTTP requests with hyper, and performing the connect steps with socket2 and tokio.
