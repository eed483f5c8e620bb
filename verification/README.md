# linkedom_rust

An arena-based HTML DOM (flat node storage, numeric node ids; append and removal
touch a fixed number of links, which the contracts do not state as a cost), with a
CSS selector engine, class lists, text content and an HTML serializer. The library is written in Verus: every operation carries a contract
over a mathematical model of the tree, and Verus proves the code against it.

## Layout

- `src/model.rs`: `DomTree`, the value of a document: for each node id its kind,
  its parent and the ordered list of its children; document order, depth, and the
  tree operations (`add_node`, `append`, `detach`, `insert_before`, `set_kind`).
- `src/arena.rs`, `src/node.rs`: the node storage and its invariant: the first/last
  child and sibling links spell out the child lists of the model.
- `src/tree.rs`: `append_child`, `remove`, `children`, `parent`, and `DomError`.
- `src/lib.rs`: `Document`, the public API.
- `src/attributes.rs`, `src/class_list.rs`, `src/content.rs`, `src/serialize.rs`:
  attributes, `classList`, text content, HTML output.
- `src/selector.rs`: the selector grammar as a function on characters, its parser,
  and matching; `query_selector_all` answers the selected elements in document order.
- `src/builder.rs`: the tree-building steps an HTML parser asks of a document
  (appending with text merging, inserting before a sibling, moving children).
- `src/laws.rs`: properties that relate several operations (a read gives back a
  write, removal undoes appending, removed nodes are no longer found, parent chains
  stay finite).
- `app/lib.rs`: html5ever's `TreeSink` for `Document` (each tree change is a call
  of a verified method) and the `wasm-bindgen` surface `WasmDocument`.
