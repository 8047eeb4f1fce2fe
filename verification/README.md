# equation_tools

Splitting, classifying and parsing arithmetic expressions and equations, with
the text handling verified by Verus.

- `src/text.rs`: white space, trimming, splitting on white space, and the
  conversions between `&str`, `Vec<char>` and `String`.
- `src/utils/element_seperator.rs`: `parse_equation`, `identify_elements`,
  `map_elements` (with `validate_equation`, which tells exactly when
  `map_elements` accepts an equation), and the properties of the terms they
  produce.
- `src/utils/transform_equation.rs`: the tokenizer and the recursive-descent
  parser for algebraic expressions; numbers stay as their text.
- `src/equations/`: the text preparation used by the BODMAS and PEMDAS
  evaluators and the variable search of the linear-equation solver.
- `app/`: the command-line program and everything that computes with
  floating-point numbers (evaluation, simplification, solving, factoring).
