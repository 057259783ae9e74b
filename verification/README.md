# volar_ir

Intermediate representations for circuits, verified with Verus.

- `common`, `ir`, `boolar`: types, constants, and the two program
  representations: `ir` computes on typed values, `boolar` on single bits.
- `circuit`, `rcircuit`, `public`, `fmt`: straight-line circuits, reversible
  circuits and their inversion, public values, and printed forms.
- `region`, `gadget`, `typed_region`, `typed_gadget`: named sets of wires,
  selectors over them, and the gadgets bound to them.
- `lazy`: circuits stored in ranges, and how long each wire is needed.
- `lir`: the low-level representation and its target description.
- `text`: the text format: a lexer, writers and parsers, and the proofs that
  what is written is read back.
- `vars`, `stmt_vars`: mapping over the variables of statements and
  terminators.
- `virt`: virtualisation. A program becomes a dispatcher, one handler for each
  class of blocks that differ only in constants and targets, and a bytecode
  table. `virt::bir_run` says how boolean programs run and proves that a
  virtualised one does what the program does. `virt::ir_run`, `virt::ir_sim` and
  `virt::ir_law` do the same for typed programs. `virt::hash_law` proves that the
  statements of the hash algorithms compute their hashes, and `virt::check_law`
  what the checks of committed rows find out. `virt::pieces` cuts blocks where
  regions start and end and proves that the pieces do what the blocks do.
  `virt::access_law` proves that a virtualised program keeps to the storage
  access that it declares.

Each module states its contracts over the views of its types. The functions
named `law_...` state what holds of several functions together.

`app/` loads stored ranges from an asynchronous source.
