# Grammar toolkit

A verified library for describing context-free grammars and the trees parsers build from them.

- `symbol`: grammar symbols, the `SymbolDomain` that numbers them densely (epsilon and
  end-of-input first), and `SymbolSet`, a bitset of symbols kept inline for up to 256 ids.
- `tree`: an arena tree addressed by generation-checked handles; freed slots are reused.
- `language::grammar`: grammar rules with their action routines, indexes of rules by head and
  by body symbol, and the FIRST and FOLLOW sets, computed by repeated walks from the start symbol.
- `language`, `parser`, `text`: the types a language and its parsers are assembled from.

Every function of `src/` is verified with Verus against its contract. The tree keeps its
parent and children fields in agreement through every operation, and stays free of cycles
unless a node is linked under one of its own descendants. The rule indexes give exactly
the rules with a given head or body symbol, and the routines of a given rule. The FIRST and
FOLLOW computations are proved to terminate and to yield the least solutions of the FIRST and
FOLLOW equations on the nonterminals every walk from the start symbol meets, within a stated
number of walks.

`app/` holds the types that carry floating-point numbers (action expressions and syntax-tree
nodes), which the verified library leaves generic.
