# pptx_notes

Puts speaker notes from a plain-text script into a PowerPoint package.

A script names a page on a line of its own, a number and a `p` (`3p`), and the lines
that follow are the notes of that page. The import opens the package, gives it a notes
master if it has none, and puts the text of each page into the notes slide of the
page's slide, making a new one where there is none. Every other part of the package
comes out as it went in.

The library under `src/` is written in Rust and verified with Verus:

- `script` reads scripts, `text` holds what it needs of strings and numbers;
- `timestamps` repairs directory entries that zip readers refuse;
- `xml` and `markup` read and write markup, `rels`, `presentation`, `slide` and `notes` the
  parts of a package;
- `numbering` finds free numbers for new parts, `parts` holds new versions of parts;
- `archive` reads packages and writes them;
- `master`, `apply` and `import` put it all together;
- `rewrite`, `again`, `deck` and `apart` prove that the last text given to a page is the one
  that counts, and that importing a script a second time changes nothing.

What the library takes on trust are the contracts of `quick_xml` (a document as a
stream of events, and an event as markup), of `zip` (what an archive holds, and what is
written to one) and of two functions of the standard library on strings. They stand in
`xml`, `archive` and `text`, each with a comment on what it claims.

`app/` holds the desktop program and the entry point for the browser.
