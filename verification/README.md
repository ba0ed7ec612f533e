# json_de

A JSON deserializer in Verus. Every function under `src/` is verified against
its contract.

## Reading

`from_slice` and `from_str` read a whole text into a `Value`. `Deserializer`
reads value by value, or step by step: the beginning of a value, the elements
of an array, the members of an object. `StreamDeserializer` reads arrays and
objects one after the other and remembers how far it has come.

Integers come as `u64` or `i64`. Every other number comes as a sign, a
significand and a power of ten; that its double is finite has been decided, in
integers. An error names its reason, its line and its column.

## Layout

* `src/read.rs`: sources of text. A source is modelled by a `Cursor`: the text,
  the place in it, and what happens at its end.
* `src/outcome.rs`: how a step ends.
* `src/grammar.rs`, `src/number.rs`, `src/string.rs`, `src/range.rs`: what each
  step makes of the text, as specification functions.
* `src/de.rs`, `src/parse.rs`, `src/stream.rs`: the code that does it.
* `src/progress.rs`, `src/locality.rs`, `src/extension.rs`: steps move forward,
  depend on nothing before them, and keep their result in a longer text.
* `src/laws/`: what holds of the library as a whole: resuming a stream, the
  limit on nesting, white space, numbers, strings, the end of the input, and
  the choice of a source.
* `app/`: serde's traits, readers and doubles on top of the library.

## What is trusted

Two items are believed without proof: that `std::io::Error` is a type that can
be carried around, and that `core::str::from_utf8` accepts the byte sequences
that are UTF-8 and no others.
