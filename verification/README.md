# riptorrent

A BitTorrent client whose core is a library verified with Verus: the wire formats, the
piece bookkeeping and the decisions of peers and of the peer manager carry `requires` /
`ensures` contracts that Verus proves.

## Layout

- `src/` — the verified library
  - `wire.rs`, `hexdigits.rs` — big-endian integers, hex and decimal digits
  - `payloads.rs`, `messages.rs`, `extensions.rs` — the peer wire protocol (BEP 3, BEP 10):
    payloads, framing, extended messages, the `ut_metadata` extension (BEP 9)
  - `handshake.rs` — the 68-byte handshake and the extension bit
  - `torrent.rs` — info hash, piece hashes, piece and block sizes
  - `piece_selector.rs` — rarest-first piece selection
  - `download.rs` — pieces in flight, block requests with timeouts, hash checks
  - `metadata.rs` — fetching the info dictionary from peers
  - `peer.rs` — one connection as a state machine
  - `manager.rs` — the peer manager of one torrent as a state machine
  - `tracker.rs`, `announce.rs`, `magnet.rs` — tracker queries and answers, tracker tiers,
    magnet links
  - `database.rs`, `client.rs` — the stored record of a download, and where an incoming
    connection goes
  - `deps.rs` — the calls into `sha1`, `hex`, `bincode`, `url`, `rand` and the clock, with
    the contracts those crates document
- `tests/` — tests of the library
- `app/` — the command-line client: TCP, files, HTTP, serde and the event loops. The pieces
  already downloaded are recorded next to the output (`<output>.bitfield`), and a later
  `download` of the same torrent goes on from there.

## Usage

```
riptorrent info <file.torrent>
riptorrent peers <file.torrent>
riptorrent handshake <file.torrent> <ip:port>
riptorrent magnet_parse <magnet link>
riptorrent download -o <output> <file.torrent>
```
