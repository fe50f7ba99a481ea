# p2p_try0

Real-time file sharing among the machines of a local network. One machine is
the tracker: it keeps the global table of peers and files, hands every new
peer an id and a snapshot of the table, passes on what peers add, and drops
peers that stop sending heartbeats. Every machine shares a directory; files
are cut into pieces named by their SHA3-256 digests, and the pieces of a
missing file are fetched from their holders, rarest first.

Packets are `[type: 1 byte][payload length: 4 bytes, little endian][payload]`
with bencode dictionaries as payloads:

| type | payload |
|------|---------|
| 0 | keep-alive |
| 1 | registration of a peer |
| 2 | a new peer, for the others |
| 3 | snapshot of the table, for a new peer |
| 4 | files added by a peer |
| 5 | a peer dropped |
| 6 | request for a piece |
| 7 | content of a piece |
| 8 | a piece acquired by a peer |

## Layout

- `src/` is the library, verified with Verus:
  - `bencode`, `types`, `message`: the records and payloads and their
    encodings, with decoders that accept exactly the encodings;
  - `packet`: framing, and reassembly of a packet from a stream;
  - `peers_info_table`, `resource_table`: the global table and what is shown
    of it; `rebuild`: why dropping a peer leaves the table built from the
    other peers; `sync`: why a peer's copy keeps up with the tracker's table;
  - `peers_info_manager`, `peer_to_tracker`, `keep_alive_manager`: what the
    tracker and the peers do on each event, as functions from state and event
    to new state and packets to send;
  - `file_manager`, `digest`, `peer_to_peer`, `downloader`: pieces and
    digests, the local files, the buffer of downloaded pieces, serving and
    fetching pieces;
  - `bytes_map`, `thread_communication_message`: small maps and the messages
    between the parts of a machine.
- `app/` holds the two programs (`tracker` and `client` subcommands): command
  line, sockets, files, tasks and timers around the library.
- `tests/` holds the tests.
