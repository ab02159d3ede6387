# comparer

Diffing of texts, folders and images, as a Verus-verified library with thin
WebAssembly and native bindings around it.

- `src/` is the verified library.
  - `text.rs`: line and word level text diffs. The line diff itself comes from
    `similar`; turning its changes into rows (terminators stripped, empty segments
    dropped) is verified.
  - `folder.rs`: folder comparison from two `lstat` listings. Listings are validated,
    the files needing a content hash are worked out, digests or errors are recorded, and
    the merged tree is built with each entry's status, reasons and error, siblings
    sorted folders first, then by name ignoring case, with counts by status.
  - `folder_laws.rs`: what holds of every folder comparison (what `identical` and
    `has_changes` mean, statuses inside folders only one side lists, a listing compared
    with itself, every listed path being exactly one node, the order of a listing not
    mattering, the counts over the whole tree and over each subtree).
  - `hasher.rs`: incremental XXH3-128 content hashing with a hex digest.
  - `image.rs`: pixel-by-pixel image comparison on 8-bit RGBA buffers: buffer checks,
    counting differing pixels, painting the diff image; decoding and PNG encoding go
    through the `image` crate.
  - `order.rs`, `chars.rs`: lexicographic order, sorting and searching; string helpers.
- `app/` holds what is not verified: the `wasm-bindgen` API with its JSON forms, the
  native folder reader (file system, rayon), and the floating-point colour maths of the
  image tolerance.
- `tests/` runs the library on concrete inputs.
