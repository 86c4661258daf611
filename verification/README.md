# rustchatpro

A room-based chat server (TCP, WebSocket and a small HTTP page server) whose
logic is written in Verus and proved against its contracts.

- `src/` is the verified library:
  - `base64`, `crypto`: the Base64 wire text, hexadecimal room keys, and
    AES-256-GCM sealing and opening of chat messages (the cipher itself is
    called from the `aes-gcm` crate);
  - `message`: chat messages, how they are shown, their length-prefixed frame;
  - `rooms`: the registry of rooms, their members and their keys;
  - `session`: what each line a client sends means and what the server does
    about it, returned as effects for the connection loop to carry out;
  - `heartbeat`, `history`, `http`, `ids`, `text`: the remaining rules and
    formats.
- `app/` is the program around it: sockets, timers, SQLite, logging.
- `tests/` exercises the library on concrete values.
