# ribbit

An eager, bit-blasting solver for quantifier-free bit-vector problems,
written in Verus. A problem is a program in a small s-expression language:

- `(declare-bv-fun x 32)` declares a 32-bit variable, `(declare-bv-fun f 8 8)`
  a function;
- `(assert e)` asserts a one-bit expression;
- `(to-bv n w)` is the constant `n` on `w` bits;
- `(ite c x y)` is `x` when the one-bit `c` is set and `y` otherwise;
- builtins on one-bit values: `and`, `or`, `xor`, `implies` (two arguments)
  and `not`;
- comparisons of two bit vectors of one width: `eq`, `ne`, `ult`, `ugt`,
  `ule`, `uge` (the unsigned ones need a width of at least one bit);
- bitwise operations: `bv-and`, `bv-or`, `bv-xor`, `bv-nand`, `bv-nor`,
  `bv-xnor` (two arguments) and `bv-not`;
- arithmetic modulo the width: `bv-add`, `bv-sub`.

`not` and `bv-not` negate their first operand. They take one operand or, as
in the language's listed signatures (`bool bool`, `A A`), two; a second
operand must have the width of the first and is otherwise not used.

The library parses a program, checks that it can be blasted (`check_program`
names the first reason it cannot), blasts it into clauses (Tseytin's
transformation, one hidden variable per subexpression, named from a counter
that the caller keeps, so that programs blasted one after the other never
share a hidden name), numbers the bits for a
SAT solver and reads values back from a model. The command-line program in
`app/` reads a file and hands the numbered clauses to Kissat through rustsat.

## Layout

- `src/syntax.rs` – the grammar as spec functions over characters, and a parser
  proved to follow it.
- `src/vars.rs` – variables, literals and fresh names.
- `src/cnf.rs`, `src/gates.rs` – clauses and what the clauses of each gate mean.
- `src/check.rs` – blasting, specified step by step over an abstract state.
- `src/sat.rs` – numbering for a SAT solver and reading models back.
- `src/semantics.rs` – what a program means, independently of clauses.
- `src/laws.rs`, `src/soundness.rs`, `src/completeness.rs` – the laws: every
  assignment that satisfies the clauses makes the program hold, and every
  assignment that makes the program hold extends to one that satisfies the
  clauses, for every program none of whose names is the name of a hidden
  variable that blasting it makes.
- `src/bounds.rs` – every literal names a bit of a variable that blasting made,
  so the clauses can be numbered when no two variables share a name.
