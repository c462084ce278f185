# wormhole-nym

Peer-to-peer file transfer over the Nym mixnet, with no relay and no rendezvous
server. The library under `src/` holds the protocol: everything that computes,
with contracts that Verus proves. The program under `app/` holds what talks to
the network, the file system and the user.

## The protocol

```
Receiver ── Hello{receiver_address, pake_msg} ──────→ Sender
Receiver ←─ PakeReply{pake_msg} ───────────────────── Sender
Receiver ── Ready ──────────────────────────────────→ Sender
Receiver ←─ Encrypted(Offer{filename, size, sha256}) ─ Sender
Receiver ── Encrypted(Accept) ──────────────────────→ Sender
Receiver ←─ Encrypted(Chunk{seq, data}) × N ───────── Sender
Receiver ←─ Encrypted(Done{total_chunks}) ─────────── Sender
Receiver ── Encrypted(Ack{sha256}) ─────────────────→ Sender
```

Messages may be delayed, reordered, repeated and lost. Every encrypted message
carries the counter that its nonce is made of, so it can be opened whenever it
arrives, and payloads are put back into order by their counters. What is lost is
asked for again.

## Modules

| Module     | What it holds                                                        |
|------------|----------------------------------------------------------------------|
| `wire`     | how integers, texts and byte strings are laid out as bytes           |
| `protocol` | messages and payloads, and their bytes                               |
| `crypto`   | key exchange, key derivation, digests, encryption, sealed payloads   |
| `envelope` | sealed payloads as messages                                          |
| `inbox`    | puts payloads that arrive out of order back into order               |
| `file`     | what is told about the file, and how it is cut into chunks           |
| `receive`  | the receiver's side of a transfer                                    |
| `send`     | the sender's side of a transfer                                      |
| `code`     | wormhole codes, and the answer of the user                           |
| `words`    | passwords made of words                                              |
| `path`     | where a file with a given name lands                                 |
| `wasm`     | the primitives on plain bytes, for bindings to other languages       |
| `laws`     | what holds of a transfer as a whole                                  |
| `error`    | the ways in which a transfer can fail                                |

## What is trusted

SPAKE2, SHA-256, ChaCha20-Poly1305, bincode and the random number generator come
from the crates `spake2`, `sha2`, `chacha20poly1305`, `bincode` and `rand`. Each
of their functions that the library calls stands behind a small function whose
contract is believed; its comment says what is claimed. Everything else is
proved.
