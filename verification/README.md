# two_sets

Splits the numbers 1 to n into two sets of equal sum when that is possible
(n % 4 is 0 or 3), with two algorithms, and reads the input and renders the
answer through a byte-level scanner and writer.

- `src/split.rs`: what an equal split of 1..=n is, and the facts that hold of
  every split (the two sides sum to n(n+1)/2; an equal split needs n % 4 in {0, 3}).
- `src/block_stride.rs`: Algorithm A, the split built from blocks of four.
- `src/greedy.rs`: Algorithm B, the greedy split from n down to 1.
- `src/text.rs`, `src/scanner.rs`, `src/writer.rs`, `src/answer.rs`: decimal
  text, the integer scanner, the byte writer and the answer's text.
- `app/main.rs`: reads standard input, solves, writes standard output.
