# openrpc-merge

Works on JSON-RPC schema documents. The references in the documents' components are resolved, also
across files and inside arrays; the references in methods are replaced by the resolved components; and
the methods of several documents are merged into one.

Each of these is a step of its own in the library. References are replaced in methods that are the
members of an object, while methods are merged that are the items of an array. The program takes all the
steps on the same documents, so once there is a document it always ends in a problem.

A reference is written `file#components/schemas/NAME`; without the file it leads to a component of
the file in which it stands.

- `src/` is the library, verified with Verus. Objects find their members through a
  `serde_json::Map`; what is taken for granted of it stands at the top of `src/json.rs`.
- `app/` is the command-line program: it reads the files, parses them and calls the library.
- `tests/` runs the library on examples.

Unless another problem is met first, there is no answer where references lead back to themselves, and
so never come to an end, nor where a reference cannot be cut behind the path to the components, because
too few bytes follow its `#` or the cut would fall inside a character. The functions whose names end in
`_checked` say so; those without that ending must not be called on such documents. On all others there
is an answer: see `law_answered` and `law_all_answered` in `src/depth.rs`, and `law_merge_answered` in
`src/pipeline.rs`.
