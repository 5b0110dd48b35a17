# nice_common

A number is nice in base `b` when its square and cube together use every digit
of the base exactly once. 69 is nice in base 10: 69² = 4761 and 69³ = 328509.

This crate searches a range for nice numbers along a stride table, and proves
with Verus exactly which numbers the search lists: those that pass the table's
two filters, are nice, and meet no digit of the high mask that the search was
given at a position that it tests.

These are all nice numbers of the range under two conditions. The depth `k` of
the table must not exceed the length of a nice number's square, for which
`5k <= 2b + 3`, or a range whose squares all have `k` digits, is enough. And a
search with a high mask needs a certified one: each of its digits occurs, for
every number of the range, at a position that the search does not test.

- `nice` defines niceness and proves what every nice number satisfies.
- `residue_filter` and `lsd_filter` compute the two filters.
- `stride_filter` combines them into one table of residues and gaps.
- `phase1` streams the table in blocks; `affine_filter` tests middle digits.
- `stride_search` walks a range; `certificate` says when a mask of high digits
  may be used; `listing` says what a result list holds.
- `client_process` is the nice check, on `wide` integers.
- `digits`, `mask` and `distinct` are the arithmetic underneath.

`app/` picks the phase-1 implementation for the CPU, keeps buffers per thread
and logs table construction.
