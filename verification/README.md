# seqsafe

A policy-based sanitizer for untrusted terminal output, written and proved in
Verus: it keeps colors and safe hyperlinks, strips attacks, and reports what it
stripped.

The pipeline has four stages. `parser` splits a byte stream into text runs,
control bytes and escape sequences. `classify` gives each token a class, a
severity and a label. `policy` says which classes survive. `sanitize` puts them
together into a streaming filter. `report` renders findings as text and JSON,
and `cli` turns command lines into commands and commands into conclusions.

## Layout

- `src/*_model.rs`: the mathematical models that the contracts speak of: the
  tokenizer as a state machine, the classification table, policies, the log of
  a sanitizer run, reports and command lines as character sequences.
- `src/*.rs` without suffix: the executable code, each function proved against
  its model.
- `src/*_laws.rs`: what holds of the library as a whole.
- `tests/`: scenarios, edge cases and the laws on concrete inputs.
- `app/main.rs`: the command-line program, which does the I/O.

## What is proved

- Chunk boundaries do not matter to tokens, output, findings or statistics.
- Tokens account for every input byte and spell the input: what is retained of
  a token is the front of what it was read from, all of it up to the size caps.
  No two text tokens are adjacent.
- UTF-8 text passes byte-identical under every policy, and the output holds as
  many line feeds and tabs as the input.
- Nothing but text, whitespace and allowed classes survives; malformed and
  overlong sequences never do.
- Sanitized output re-scans clean, and sanitizing is idempotent.
- Unless the policy allows the class `c1` itself, every byte of the output in
  the C1 range continues a well-formed UTF-8 character. Kept sequences have
  7-bit introducers, and 8-bit ones are ruled on alike.
- Where lone carriage returns are forbidden, every carriage return written has
  its line feed, and every lone one in the input has one finding.
- Findings name the input offset and line of what they are about. Their offsets
  increase, more input takes none of them back, and the statistics add up.
- Excerpts hold printable characters only and tell which bytes they show, and
  escaped text is one JSON string.

The one assumption about code outside the library is that `String::push`
appends a character.
