# julix

Julix is a small scripting language: the Lixer front end (lexer, parser,
bytecode compiler), a binary bytecode format, and LixVM, the stack machine
that runs it. The library is written in Verus: each public function states
its behaviour over mathematical models (sequences of characters and tokens,
syntax-tree values, machine states), and Verus proves the code against it.

Layout:

- `src/text.rs`: character and string helpers, decimal text of integers.
- `src/lixer/`: tokens and the lexer, the syntax tree, the expression and
  statement parsers, and the compiler from statements to instructions.
- `src/bytecode/`: instructions, chunks, and their byte encoding
  (`deserialize` gives back what `serialize` wrote).
- `src/lixvm/`: values, environments, errors, the arithmetic, comparison and
  logic operations, native functions, built-in methods, and the machine,
  whose `step` takes one instruction; the first dialect's tree-walking
  interpreter lives in `interpreter.rs`.
- `src/ast/`, `src/lexer/`, `src/parser/`: the first dialect of the language
  (print statements over literals and sums).
- `app/`: the command-line programs (`julix`, `lixvm`, `jujit`), file and
  console I/O, floating-point arithmetic and formatting, error messages (they
  show values in their debug form, floats included), and the loop that drives
  the machine step by step.
- `tests/`: tests of the library on concrete programs and values.
