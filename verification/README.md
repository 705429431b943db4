# am_interop

The layer between an automerge document and its JavaScript host: reading the
sync protocol's values (heads, bloom filters, `Have`s, sync states and messages,
changes) from JavaScript values and writing them back, turning JavaScript values
into automerge objects, exporting automerge values to JavaScript (with the data
handlers that the host registers per datatype, and the hidden properties that tie
an exported value to its automerge object), and applying the observer's patches to
exported values.

The library works on a model of JavaScript values (`src/js.rs`) held as plain
Rust data, and its functions are verified with Verus against contracts over that
model. The calls into automerge and hex (decoding bloom filters, loading changes,
parsing and writing hash texts) and one `String` method stand behind a few small
functions marked `#[verifier::external_body]`, whose contracts state what those
crates' sources show and are not proved; the registered data handlers are reached
through the `DataHandler` trait, whose contract only ties each result to the call.

- `src/js.rs`: the model of JavaScript values, property access (`Reflect.get`,
  `Reflect.set`, `Reflect.deleteProperty`), hidden properties, copies.
- `src/text.rs`, `src/num.rs`: decimal and hexadecimal text; doubles read as
  integers the way `as` casts read them, integers rounded to the nearest double,
  and numbers converted to bytes as a `Uint8Array` stores them.
- `src/hash.rs`: change hashes and ordered sets of them.
- `src/sync.rs`: the sync protocol's values to and from JavaScript; bloom filters
  and changes are held by their bytes as automerge writes and stores them.
- `src/value.rs`: datatypes, automerge values and their initial JavaScript
  values, properties, object ids, reading JavaScript values as objects.
- `src/export.rs`: data handlers, wrapping and unwrapping exported values.
- `src/document.rs`: exporting an object read out of a document.
- `src/patch.rs`: applying patches.
- `src/error.rs`: the errors, each with a view that contracts speak of.

`app/` converts real `wasm_bindgen` values to and from the model, calls the
registered JavaScript functions, reads objects out of an `automerge::AutoCommit`,
converts automerge's sync types, and gives the errors their messages.
