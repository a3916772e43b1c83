# fhe_egraph

Multiplicative-depth (MD) and multiplication-count (MC) optimization of
arithmetic programs for fully homomorphic encryption, by equality saturation
and extraction.

The library (`src/`) is verified with Verus. It holds:

- `text`, `dag_parser`, `expr_parser`: the textual DAG format, the
  arithmetic formula front end and its normal form;
- `lang`, `dag`, `intern`: the e-node language, post-order programs, and
  hash-consed arithmetic DAGs with their MD/MC statistics;
- `cost`: the tree cost that minimizes MD, the MC weight of the global
  extraction, and why sharing keeps MD and can only lower MC;
- `class_analysis`, `md_mc_extractor`: the model of `min MC subject to
  MD <= D` over a snapshot of a saturated e-graph (root-reachable classes,
  safe depth lower bounds, pruned candidates, constraint lists) and the
  decoding of a solved selection;
- `mip_formulation`, `decoded_depth`: the integer program as plain linear
  constraints, the acceptance of a solver's answer, and why a solution
  decodes to a program within the depth bound;
- `optimizer`, `evaluator`: the extraction results and their validation;
- `text_round_trip`, `parse_laws`: the printed form of a parsed DAG parses
  back to it; a comment appended to a line changes nothing (with `\n` or
  `\r\n` line breaks, with or without a final one); one node per
  definition line;
- `normal_form`: the formula normal form is idempotent, and ignores the
  order and grouping of operands provided no two different terms share a
  sort key (`x1` and `x01` do: their order is kept as written);
  `formula_laws` carries this to the text that `arithmetic_to_prefix`
  reads and prints.

The program (`app/`) runs equality saturation with `egg`, egg's tree and ILP
extractors, and the MIP with `good_lp`/HiGHS, over the benchmark directory.
