# Elrond

An Nginx-compatible HTTP server and reverse proxy whose decisions are verified
with [Verus](https://github.com/verus-lang/verus).

* `src/` is the library. Everything that decides or computes is here: the
  configuration language, routing, load balancing, caching, limits, access
  control, authentication, compression, static files, metrics and the order in
  which a request passes through them. Each function states what it returns in
  `requires` / `ensures`, and Verus proves that it does.
* `app/` is the program around it: sockets, TLS, HTTP/1.1, HTTP/2, HTTP/3, files,
  signals and clocks. It performs what the library decides and hands back what
  came of it.
* `tests/` runs the library on concrete values.

## The library

| Modules | What they hold |
| --- | --- |
| `config` | lexer, parser, `include`, and the checks that turn directives into a configuration |
| `app` | the runtime that a configuration describes: listeners, virtual hosts, locations, balancers |
| `server`, `pipeline` | the course of a request: selection, limits, authorization, action, response headers |
| `proxy`, `cache`, `health`, `stream` | forwarding with retries, the response cache, probes, TCP streams |
| `static_files`, `gzip`, `http_date` | files, ranges, listings, conditional requests, compression, dates |
| `access`, `auth`, `auth_request`, `limit`, `mirror`, `subrequest` | who may pass, how often, and who is told |
| `template`, `request_ctx` | variables and the request that they are read from |
| `metrics`, `privilege`, `supervisor`, `sd_notify`, `cli`, `tls`, `http3` | the rest of the process |
| `text`, `net`, `time`, `headers`, `body` | values that the others share |

What the library promises as a whole is stated by the public proof functions
whose names begin with `law_`.

A few functions call other crates (`hyper`, `regex`, `base64`, `bcrypt`, `flate2`,
`rustls_pemfile`) or parts of the standard library that have no specification.
Each such call stands in a small function marked `external_body`, whose contract
is believed and whose doc comment says what is believed.

The token arithmetic of `limit_req` is floating point and stands in
`app/rate.rs`; the zones that it counts in are part of the library.
The uptime in `/metrics` is printed from a floating-point number in
`app/handler.rs`; the library counts it in nanoseconds.
