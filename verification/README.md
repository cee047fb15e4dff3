# fe_compiler

Verified parts of a compiler for smart contracts, written in Verus.

- `src/hir` holds the high-level representation: function bodies as arenas of expressions and
  statements (`body`), what the type checker knows of them (`typed`), and items (`item`).
- `src/mir` lowers a typed body to basic blocks. `rules` says what each construct adds to the
  lowered body, `expr`, `value` and `builder` do it. `total` says which bodies can be lowered, and
  `laws` what holds of every lowered body: finished blocks and values stay as they are, every
  identifier is bound, every loop is left again, control never runs into a block without a
  terminator, a `for` loop over a range counts like the `while` loop it stands for, and one over
  an array visits the elements at the indices below its length.
- `src/yul` builds the Yul object of a contract (`contracts`) and the dispatcher over its public
  functions (`abi`). `laws` says how parameters are laid out and when a contract compiles.
- `src/text.rs` writes numbers and lists.
- `tests` runs all of it on concrete bodies and contracts.
- `app` puts items into a database and hands Yul to a printer.

Two outside functions are trusted, both in `src/yul/abi.rs`: the Keccak hash of `tiny-keccak`, of
which only is said that it is a function of the bytes, and `hex::encode`.
