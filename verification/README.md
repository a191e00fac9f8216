# xfmt

A verified library for XFMT archives, and the command-line tool around it.

An archive is a 20-byte header, a JSON manifest, a JSON index and a payload region.
The source is cut into content-defined chunks; each distinct chunk is stored once,
compressed with zstd and, with a password, sealed with AES-256-GCM under a key derived
by PBKDF2. Every index entry says where its chunk lies in the source and where its
stored form lies in the payload, so any byte range is read back by opening only the
chunks that meet it.

Layout:

- `src/` — the library, verified with Verus.
  - `pack.rs`: the packer (`Packer`): digests, deduplication, stored forms, the index,
    and the laws that the index tiles the source, that every entry points at the
    stored form of its own chunk, and that the payload is each chunk's stored form
    once, in order of first appearance.
  - `unpack.rs`: choosing the chunks of a byte range, opening stored chunks (refusing
    entries over the 100 MiB decompression cap), cutting pieces, and the laws that the
    pieces join to the packed bytes, for a packer's own index and for any index that
    tiles its source.
  - `header.rs`, `hex.rs`: the fixed header and hexadecimal text, with their round trips.
  - `keys.rs`: key derivation, signing-key files, manifest signatures, key pairs.
  - `manifest.rs`, `models.rs`: the manifest and index types and how a manifest is built.
  - `repo.rs`: where a repository keeps a chunk (`chunks/ab/abcdef…` for a digest).
  - `serve.rs`: HTTP range requests (ends cut to the object), response headers, and
    the law that the body is what the head announces.
  - `crypto.rs`, `codec.rs`: the calls into sha2, aes-gcm, pbkdf2, ed25519-dalek, rand
    and zstd, with the contracts the proofs rely on.
- `tests/` — tests of the library on concrete values.
- `app/` — the command-line program: arguments, files, chunking of file streams,
  JSON, the HTTP server and the media player.
