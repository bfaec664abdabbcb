# zhixing_node

A deterministic proof-of-knowledge node in verified Rust (Verus).

Given the same genesis, the same blocks and the same delta-K engine, every node
computes the same state, byte for byte. The library under `src/` is the state machine
and what is built around it; every function states its behaviour in a contract, and
Verus proves it. `app/` is the program: command line, files and streams, and the
engine.

## What is where

| | |
|---|---|
| `tx`, `codec`, `parse`, `wire` | submissions and blocks, the canonical encoding, reading it back |
| `hash`, `crypto`, `merkle` | SHA-256, ed25519 identities, Merkle trees and inclusion proofs |
| `ieee`, `clock` | binary32 values as bit patterns: rewards, reputations and times without floats |
| `graph`, `state`, `ledger`, `roots`, `commitment` | the knowledge graph, the state transition, conservation of the supply, state roots and what they commit to |
| `chain`, `store` | the hash-linked chain, replay, the block log |
| `mempool`, `validator`, `consensus`, `round`, `driver` | the pool and the block builder, finality certificates, a round of voting, the chain driver |
| `gossip`, `node`, `network`, `flood`, `sync` | messages, full peers, why gossip floods once and reaches every peer, why peers converge |
| `light`, `spv`, `light_network` | headers, light peers, the bridge between full and light ones |
| `text` | numbers, amounts and errors for people |

## What is proved

Each module ends in laws: public proof functions named `law_...`. Among them:

- blocks and messages are read back from their encodings, nothing else is accepted,
  and whatever is cut short is refused because the input ends;
- a genesis whose balances sum to a 64-bit word starts with its supply conserved, and
  every block and replay conserves it;
- the head of a chain commits to its whole history, and the digest to the whole state;
- an account, a standing or a graph node opens the Merkle root of the full peer's state,
  a validator that of its set, and a false one does not unless SHA-256 collides (headers
  carry no state root, so only the validators' root is one that a light peer tracks);
- two certificates for different blocks at one height and round show who signed both;
- whatever messages arrive, a node holds only certified blocks;
- a rumor floods once, ends, and reaches every peer;
- a network of peers at mixed heights converges to the tallest chain.

## What is trusted

The three calls into `ed25519-dalek` in `crypto`, and `BTreeMap::get_mut` in
`network`. The delta-K engine is a parameter: contracts speak of the function that it
computes.
