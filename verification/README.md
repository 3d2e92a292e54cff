# axum-range

HTTP range responses for [`axum`](https://docs.rs/axum), with the decisions verified by Verus.

* `src/` is the library: it reads `Range` headers, chooses the ranges to send, puts status and
  header fields together and steers the streams that send the bytes. Contracts say what each
  function does; `src/laws.rs` states what holds of requests and replies as a whole.
* `app/` connects it to files and to the web framework.
* `tests/` runs the library on concrete requests.

The library trusts three calls, all in `src/outside.rs`: `Range::satisfiable_ranges` of the
`headers` crate, `mime_guess::from_ext`, and the system clock.
