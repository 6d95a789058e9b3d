# quantifier_elimination

Exact building blocks for quantifier elimination over the real numbers,
written in Verus: every function in `src/` carries a contract that Verus
proves, and the laws of the library are public `law_*` proof functions.

## Layout

- `src/rational.rs` — exact rationals (digits kept by the library; the
  arithmetic itself is `num-rational`, called through small trusted
  wrappers whose contracts say what the crate computes).
- `src/monomial.rs`, `src/polynomial.rs`, `src/evaluation.rs`,
  `src/variables.rs`, `src/field.rs` — canonical multivariate polynomials,
  their arithmetic, evaluation at a rational point and the laws that tie
  them together (evaluation respects sums and products, exponents add,
  `p - q` is zero exactly when `p == q`, ...).
- `src/algebra/` — univariate polynomials: division with remainder, Sturm
  sequences, root bounds, isolation of the drops of the Sturm variation
  count by bisection, and operations on real algebraic numbers (negation,
  shifting and scaling by a rational).
- `src/formula.rs`, `src/parser.rs`, `src/cli.rs` — formulas, their text
  syntax (lexer and parser with exact grammar contracts), evaluation at a
  point, alpha-renaming that rejects capture, and the command line's
  options and reports.
- `src/cad/` — Collins projection: coefficients, discriminants and
  resultants, and the projection stack; the laws state that projection
  eliminates its variable and lists every nonzero piece once.
- `src/qe/` — the elimination rules: negation normal form, the linear
  rules (each with a law that it is exact over rational values of the
  eliminated variable), merging of sign conditions, pruning of linear
  bounds, factoring, the symmetric special cases, and linear constraints;
  `src/qe/dispatch.rs` eliminates nested quantifiers innermost first and
  sends each quantifier to the first rule that takes it (the linear rules,
  distribution over Boolean branches); a quantifier that needs a
  cylindrical algebraic decomposition is refused as `Unsupported`.
- `tests/` — the tests, run against the compiled library.
- `app/` — the command-line program: argument handling, file reading and
  printing around the library.
