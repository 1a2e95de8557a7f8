# knead

A KDL parser and typed decoder, written in Verus. The library reads KDL v2
and KDL 1.0 documents into a tree that borrows from the source, decodes nodes
into Rust values through a `Decoder` that tracks what has been claimed, and
holds the decisions behind the `Decode` and `DecodeScalar` derives.

## Layout

- `src/` is the verified library.
  - `text`, `span`, `errors`: source text helpers, byte ranges and errors.
  - `cursor`, `lexer`, `strings`: the tokeniser, with string escapes and
    raw, quoted and multi-line strings.
  - `parser`, `dialect`, `ast`: the recursive descent parser and the tree it
    builds, in strict and lenient mode.
  - `decode`, `number`: the decoding traits, the `Decoder`, and the scalar
    conversions, integers included.
  - `derive`: the attribute grammar and field planning of the derives, over a
    small model of token trees.
- `tests/` runs the library on examples.
- `app/` holds what is not verified: miette diagnostics, floating-point
  scalars, and the proc-macro2, quote and venial plumbing that turns derive
  input into code.

## What is proved

Among the properties the contracts state and Verus proves:

- every parse error is a syntax error that points inside the source, a
  lenient lexer never stops on one, and lenient errors come sorted by
  offset;
- every node, value and children block lies in the source, nodes are in
  source order inside their parent's range, and nesting stops at 256 levels;
- no node keeps two properties with the same name;
- a lenient read of a string skips an invalid escape or a disallowed
  character, ends an unterminated single-line string at the newline, keeps a
  badly indented multi-line string as best it can, and, when it succeeds,
  has recorded an error exactly when a strict read of it fails;
- in strict mode, node names, type annotations, property names and values are
  what their tokens in the source read as, escapes decoded and multi-line
  strings dedented, and a lenient parse that reports no error reads them the
  same way;
- each token reader states on which input it succeeds: comments, line
  continuations, radix prefixes, numbers and bare words, per dialect;
- a node's range joins its annotation, name, entries and children block, and
  a property's range joins its name and value;
- the decoder hands out arguments in order, hands out each property and child
  once, `finish` fails exactly when something was left unclaimed, and
  `conclude` returns a decode's error, else that failure, else the value;
- integer decoding follows the digits of the literal in its radix, and the
  decimal text of an integer reads back as that integer;
- the field attributes of the derives are read into options exactly as their
  grammar says, and accepted options fit together;
- the plan for reading a field says where the value is looked up, how it is
  read (`str` through `FromStr`, the `unwrap` forms), whether an `Option`
  field is decoded through the type inside, and what stands in when the node
  lacks it: the `default`, `None` for an `Option`, or the missing-entry error.

What the contracts leave open: which texts are KDL documents. They describe
every document a parse returns and every error it reports, but no grammar of
KDL is written down here, so they do not say on which sources a parse must
succeed.
