# junction

A DNS resolver that keeps the addresses of a changing set of names up to date, written and
proved in Verus.

- `src/resolver.rs` is the state of the resolver: which names and ports it keeps track of, who
  looks a name up, and what came back. `src/model.rs` says in mathematical terms what each
  operation does, and `src/laws.rs` what follows for the resolver as a whole.
- `src/stdlib.rs` decides what a pool of workers does next and who has to be told of a change.
- `src/config.rs` reads the part of `resolv.conf` that counts.
- `src/client.rs` takes requests from the C interface and words the replies.
- `src/addr.rs`, `src/hostname.rs`, `src/time.rs`, `src/endpoints.rs`, `src/text.rs` and
  `src/ord_map.rs` hold the values that these are made of.
- `app/` is what surrounds the library: threads, locks, lookups, files and the C interface. It
  needs the crates `junction-api` and `junction-core`, for hostnames, URLs and the client of the
  control plane.

What the library takes on trust of other code stands in a few functions whose doc comments
name the function that they call: `time::random_below`, `client::http_method`,
`text::from_utf8`, `text::from_utf8_lossy` and `resolver::share`.
