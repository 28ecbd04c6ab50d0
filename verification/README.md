# print_typeset

Turns text documents (plain text, Markdown, HTML, and structured `LaTeXML`
HTML such as arXiv papers) into `Typst` markup and PDF, with contracts proved
by Verus.

Library (`src/`, verified):

- `text`: character-level helpers (trimming, escaping, numbers) and their specs.
- `config`, `units`, `table`: formats, colors, alignments, orientation, the
  `#table` emitter.
- `markup`: plain text, Markdown and HTML to `Typst`, page-break rules.
- `fixup`, `math`: `TeX` normalization and the tiered math pipeline
  (`tex2typst`, `RaTeX` images, raw `TeX`).
- `html`, `importer`: the parsed document tree and the `LaTeXML` importer with
  its asset resolvers.
- `outline`: section overrides applied to an imported body.
- `template`, `pdf`, `fonts`: the measurement-free template pieces, PDF
  compilation, the font family list and the default serif.
- `page_cache`, `startup`, `labels`: the viewer's page cache, startup
  preferences, short interface texts.
- `dispatch`, `file_list`, `source_cache`: the background worker's queue
  discipline (newest preview wins), the editable list of imposition inputs,
  and the reuse of loaded imposition sources.
- `preview`, `preview_doc`, `log_buffer`: when the typesetting view asks for a
  new preview, the embedded preview's document and page, the bounded log.

`app/` holds what computes with floating-point measurements (paper sizes,
font sizes, spacing), system font discovery, the drivers `typeset` and
`typeset_html`, the worker loop that feeds the dispatcher, and the `log`
sink over the log buffer.
