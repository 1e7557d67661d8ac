# bencode_torrent

Bencode decoding and BitTorrent metainfo handling, written in Verus: every function of the
library carries a contract over a mathematical model and is proved against it.

## Layout

- `src/protocol/` — the `Bencode` value and its model `BencodeValue`; `BencodeDict`, a dictionary
  kept sorted by the bytes of its keys; the decoder (`decoder/`, with the grammar as spec
  functions and its laws); the encoding as a spec function, with the proof that decoding an
  encoding gives the value back; the readable and the one-line renderings.
- `src/bencode/` — a stricter byte-string reader (`Deserializer`) for integers and strings, and
  its own value type, whose integers are 128-bit.
- `src/metainfo/` — `Metainfo` and `InfoDictionary` read from a decoded dictionary, and the key
  extraction helpers.
- `src/tracker/` — the announce URL (percent-encoded info hash and query parameters) and the
  reading of a tracker's compact answer.
- `src/peer/` — peers, their address text, and the handshake message and its check.
- `src/text.rs` — decimal text, string building, and the thin wrappers around std conversions.
- `app/` — the program: it reads a torrent file, and holds the HTTP and TCP code (reqwest,
  tokio) around the library.
- `tests/` — runtime tests of the library.

Dictionaries are a `BencodeDict`, a vector of entries held sorted by the raw bytes of their keys
under a type invariant, rather than a `BTreeMap<String, _>`: Verus's specification of `BTreeMap`
proves next to nothing of maps keyed by `String`, while the sorted vector lets the contracts say
exactly which map a dictionary stands for and in which order its entries are written.

Calls into `regex`, `urlencoding` and `reqwest`'s URL parser are made from the library through
small trusted wrappers whose contracts are stated next to them.
