# fress

Parts of a fressian library, verified with Verus.

- `value`: values as one 64-bit handle; nil, true, false and immediate
  numbers are told apart by the handle's bits.
- `uuid`: reading the text `XXXXXXXX-XXXX-XXXX-XXXX-XXXXXXXXXXXX` into the two
  64-bit halves of a uuid, with the message of the first fault when it is
  not one, and writing a uuid back as `#uuid "…"`. Proved: every uuid's text
  reads back as the uuid, and a text that reads as a uuid is written back as
  itself in upper case.
- `memory`: segments of units; a unit is a word or a counted reference to a
  segment, and a shared segment is copied before it is written.
- `vector`: persistent vectors, a 16-way radix tree with a tail. Proved:
  `conj` adds its element at the end and keeps every other element in place,
  whatever the shape of the tree, and which units it keeps, copies, grows or
  hangs where. That vectors sharing segments with it keep their elements is
  not a proof of this crate: it follows from Rust's ownership, since a shared
  segment sits behind an `Rc` and is only written once it has been unwrapped
  or copied. Which of the two happens depends on the run-time count of the
  `Rc`, which the contracts leave open.
- `nibble`: powers of 16 and base-16 digit counts.

`app/` holds what writes to a formatter.
