# rdns

A DNS proxy and ad blocker. Queries over UDP, TCP, TLS and HTTPS are answered from local records,
blocked by lists, served from a cache, or forwarded to upstreams.

- `src/` is the library: all decisions of the server, written in Verus. Every function states in
  its contract what it returns, and the laws of the library are proved as functions named `law_..`.
- `app/` is the program around it: listeners, upstream connections, the HTTP interface, files, the
  configuration file and the command line.
- `tests/` runs the library with the outside crates that it calls.

## The way of a query

1. A name in `custom_dns` is answered from the configuration: addresses, aliases, and the reverse
   names of the addresses.
2. A domain on a blacklist of the client's group is answered with `0.0.0.0` and `::`, NXDOMAIN or a
   configured address. A domain on a whitelist of the group is never blocked. A rule for a domain
   holds for all domains below it.
3. A domain below a conditional entry goes to the upstreams of that entry, any other to the group
   `default`; in both cases the cache is asked first.
4. A group of upstreams is asked all at once, in order, or in random order. The first answer counts.

## What is trusted

The library calls `hickory_proto` for the encoding of messages and names, `regex`, `flate2`,
`base64`, `ipnet`, `rand`, `rustls_pki_types` and `rustls_pemfile`, and a few functions of std. Each
call stands behind an item marked `external_body` or declared by `assume_specification`, whose doc
comment says what is believed of it.

## Command line

`rdns start -c config.yaml` runs the server and `rdns check -c config.yaml` reads a configuration
file. `rdns blocking`, `cache`, `metrics`, `querylog` and `stop` talk to a running server over its
HTTP interface.
