# minecraft_connector_api

A small HTTP bridge that asks Minecraft Java Edition servers for their status through the
Server List Ping protocol.

- `src/` is the verified library: the protocol's byte encodings (`buffer`: VarInts,
  big-endian shorts, length-prefixed strings, and the VarInt reader), the handshake and
  status request packets together with the reader of a status response as a state machine
  (`messages`), the checks and errors of the `/status` endpoint (`status`), and the status
  response model (`server_status`).
- `app/` is the HTTP server: it parses the query, talks to the Minecraft server over TCP,
  decodes the JSON answer and renders errors, using the library for every decision.
- `tests/` exercise the library on concrete values.
