# mtsender

A verified core for sending MTProto requests, directly or through a proxy.

`src/` is the library. It decides what goes over the wire and when, and every decision carries a
contract that Verus proves:

- `sender`, `flow`, `progress`, `requests`: which requests go into the next packet, when they count
  as sent, which message answers which request, and what is left after an error.
- `protocol`: the layers below, as the sender uses them. Nothing is assumed of what they do; how
  they were used is recorded for the contracts.
- `updates`: updates that the server sends on its own.
- `retry`, `auth`: connecting again, and the order of a key exchange.
- `config`, `proxy_url`, `text`: what a proxy's URL says.
- `obfuscated`, `aes_ctr`, `digest`: the header that opens an obfuscated connection, and its ciphers.
- `client_hello`, `fake_tls`, `tls_record`, `stream`: looking like TLS on the way to a proxy.
- `buffers`, `random`, `octets`, `errors`: what the others share.

Functions marked `external_body` call other crates. What their contracts say of those crates is
not proved; their doc comments say which function is meant and what is claimed of it.

`app/` is ordinary Rust around the library: sockets, name resolution, timers, channels and logging.

`tests/` runs the library with the real crates.
