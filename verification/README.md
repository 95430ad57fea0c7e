# cch23

Solutions to a set of Christmas web-service puzzles, split in two:

- `src/` is the verified library (Verus): parsing of path pieces and numbers,
  the sled-id XOR cube, reindeer strength sums, name windows, elf counting,
  recipe-cookie decoding and baking, packet-id timing, ULID to UUID
  conversion and ULID statistics, the password rules, and the step function
  of the rate-limited country lookup.
- `app/` is the actix-web service around it: routes, extractors, JSON, the
  clock, files and network requests, and the answers computed with floating
  point.

Calls into outside crates (`regex`, `base64`, `ring`, `data-encoding`,
`unic-emoji-char`, `ulid-generator-rs`, `uuid`, `chrono`) are made through
small trusted wrappers whose contracts say what the crates compute.
