# imageshare

The verified core of a peer-to-peer image sharing system: cloud servers
that elect a leader (bully style) to store and encrypt images sent by
clients, and clients that lease their images to peers for a limited number
of views on a small website.

- `src/` is the library, verified with Verus:
  - `wire.rs` — the server-to-server message format, its reader and writer,
    and the round-trip laws.
  - `address.rs` — server addresses and their companion server-to-server port.
  - `commands.rs` — the `ping`/`list` commands a server accepts, and the
    commands a user types at a client.
  - `roster.rs` — the record of images taken from clients and the `list` reply.
  - `intake.rs` — decisions of a server's client-socket handler.
  - `peers.rs` — decisions of a server's server-to-server handler.
  - `election.rs` — the leader election run when the leader is silent.
  - `leases.rs`, `pages.rs` — lease counts, routes and pages of a client's website.
  - `text.rs` — character-level helpers.
- `app/` holds the two programs (`server` and `client`): sockets, threads,
  files, timers and the web server, calling the library for every decision.
- `tests/` runs the library, and checks its message format against bincode.
