# rustorrent

A small BitTorrent client. It reads `.torrent` files, asks the HTTP tracker for
peers, connects to the first peer that answers, exchanges handshakes and its
bitfield, and requests the blocks of a piece the peer has.

The library under `src/` is verified with Verus:

- `bencode`: parsing and encoding of bencoded items, with the laws that encoding
  then parsing gives the item back (`roundtrip`) and that parsing then encoding
  gives back bytes written in plain decimal (`canonical`); `order` is the total
  order of items that dictionary lookups rely on.
- `decode`: the small decoders over byte slices that the parsers share.
- `text`: decimal and hexadecimal text, and std's integer parsing and lossy
  UTF-8 decoding as the contracts state them.
- `torrent::message`: the peer wire messages, read back from their bytes.
- `torrent::protocol`: the handshake and a peer's decisions, one step at a time;
  requests walk through every block of the piece it works on.
- `torrent::peer`: a connection as a state machine over the bytes read: the
  handshake, message frames split across reads, and the replies to send.
- `torrent::meta`, `torrent::response`: metainfo and tracker responses.
- `torrent::storage`: the size and loading of the bitfield of done pieces.
- `util`: dictionary field lookup, SHA-1 and percent-encoding.

`app/` holds the command-line program: arguments, files, HTTP, TCP, logging and
JSON output, around the library.
