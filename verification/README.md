# text_index

A verified text index over byte texts that end in a unique 0 byte (the
sentinel): suffix arrays, LCP arrays, and the queries built on them.

- `suffix_order`: the model. The lexicographic order of suffixes, common
  prefix lengths, what a suffix array is, and laws about them (a text has
  exactly one suffix array).
- `sorting`: a verified merge sort under a total preorder, and sorting of
  positions by pairs of ranks.
- `prefix_double`: suffix array construction by prefix doubling.
- `construct_index`: the suffix array (naive and by prefix doubling) and the
  LCP array through the Φ array (Kasai's bound, proved).
- `queries`: the longest tandem repeat (the longest square `ww`) and the top-k
  most frequent substrings of a given length (by occurrence count, then
  lexicographically).
- `parser`: reading the top-k input (a count, then one `length k` query per
  line, then the text).
- `sais_spec`, `sais_byte_spec`, `sais_u8`, `sais_i32`: the steps of induced
  sorting (SA-IS) over byte and integer alphabets, each specified as a
  function of the state before it.

`app/` is the command line program (`topk`, `repeat`, `echo` on a file).
