# p2p_transfer

The verified core of two tools: a peer-to-peer file transfer (share a file, send the
receiver a link, stream the bytes over a relayed stream or a data channel) and a one-way
file tree sync driven by `git status`.

`src/` is the library, written in Verus. Every function there carries a contract, and the
properties that span several calls stand as public proof functions (`lemma_*`), among them:

- a share link read back gives the ticket and access code it was built from;
- a reply of the echo protocol, read back field by field, reports every file with its hash
  verified;
- a blob added to the store is found again with the same bytes, and a removed one is gone;
- the receiver's byte budget admits a full window, and releasing what it admitted undoes the
  admission;
- a change tree built from plain paths lists each path once, with its last change.

Calls into outside crates (BLAKE3, bao-tree, postcard, crc32fast, iroh-tickets, url) go through
small trusted wrappers whose contracts name what the crate computes.

`app/` holds what cannot be verified: the command line of the tree sync, file system walks,
git processes, and the async loops that carry frames between the library's state machines
and the network.

`tests/` runs the library against concrete values, with the real outside crates linked.
