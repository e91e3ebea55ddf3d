# Language features for Odoo addons

A verified library behind three features of a language server for Odoo:

- **Locations of XML documents** that resolve to symbols: model names, xml ids, fields and methods
  (`xml_ast_utils`, `xml_scope`, `xml_lookup`).
- **Completion in XML documents**, also while the document does not parse yet (`xml_completion`,
  `completion_items`, `xml_repair`).
- **Signature help** for python calls (`signature_help`).

The features read an analysed code base as plain values (`symbols`), and a document as the list of
its nodes (`xml_document`). Answers are byte offsets of the source. `xml_walk_laws`,
`xml_view_laws` and `completion_laws` state what holds of the features as a whole.

`app/` turns requests and answers into LSP values, and python syntax trees into the plain calls that
signature help reads.

Two outside crates are called from the library: `roxmltree` parses XML, `ruff_text_size` says whether
an argument contains the cursor. What the proofs believe of them stands at the two functions that
call them.
