# pst_utils

Verified building blocks for reading Outlook PST files and the HTML bodies of
Outlook messages, written in Verus.

- `src/structs.rs`: block references, heap ids (`Hid::new` splits a heap id
  into its fields), heap-on-node blocks, nodes, property tags, recipients.
- `src/supporting_functions.rs`, `src/consts.rs`: block ids, block references
  read from their bytes, the PST magic bytes, lookups in table columns and
  property values, and the byte permutation that encodes block data
  (`decode_permute`), with the proof that its two tables are inverse
  permutations.
- `src/rtf_html_deencapsulate.rs`, `src/rtf_lex.rs`: extraction of the HTML that
  Outlook encapsulates in RTF (`rtf_to_html_outlook`, and
  `try_rtf_to_html_outlook` for any text), specified as a parser over the
  document's bytes (`html_from_rtf`).
- `src/charset.rs`: the ANSI code pages an RTF document can name; single bytes
  are decoded with `encoding_rs`.
- `src/text.rs`: growing strings and turning code points into chars.
- `app/`: reading values at offsets of a PST file, and the full property and
  table value types, whose values include floating-point numbers.
