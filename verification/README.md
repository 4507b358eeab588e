# Starling protocol library

The protocol core of Starling, a peer-to-peer chat platform, written in Verus:
the library's logic in `src/` is proved against its contracts by Verus.

- `src/` — the verified library: identifiers and frames, canonical event
  encoding, signing and sealing, membership and descriptor chains, roost
  manifests and permissions, admission challenges, presence leases, call
  signals, provisioning packages, history validation and reconciliation,
  chat sync, invite codes and profile codes.
- `tests/` — executable tests of the library.
- `app/` — the `starling` launcher: command line, files, network and other
  I/O around the library.

Calls into cryptographic and encoding crates, and into the parts of std
that Verus does not specify, go through small trusted wrappers whose
contracts state what those crates document and are not proved; everything
built on them is. Constructors of random values state nothing of the
values they draw.
