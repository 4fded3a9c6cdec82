# os_dev_specs

An index of OS development specifications and datasheets. `data.md` lists
each specification: an id line, a source block (title, `pdf` or `zip`, url,
and for a zip the path of the PDF inside it) and page entries. From it the
tool writes `index.html` (linking to the local PDFs), `docs/index.html`, a
download script and a normalised `data.md`; it downloads the PDFs, keeps their
hashes in `spec/index.txt`, and checks them.

Layout:

- `src/` — the library, verified with Verus:
  - `text.rs`: whitespace, trimming, splitting into lines and words;
  - `model.rs`, `order.rs`, `sort.rs`: the records, their models, the order
    in which they are sorted, and a verified insertion sort;
  - `parse.rs`: the grammar of the lines of `data.md` and the reader of the
    whole document;
  - `render.rs`: `data.md`, the HTML index and the download script;
  - `index.rs`, `report.rs`: the hash index, its differences, file checks
    and the lines that report them;
  - `download.rs`: the steps of fetching one file, and what a download
    does once the files are fetched; a dry run fetches into a scratch
    directory it throws away, and leaves `download/` and `spec/` as they
    were;
  - `watch.rs`: when a change of `data.md` triggers a rebuild;
  - `laws.rs`: what holds across these — reading back what was written;
    what a document gives whatever its blank lines and padding; and whatever
    the order of its blocks and of their page lines, when the first page
    line that fails stays the same, the ids of a document read without
    error are distinct, and no block starts with a page line.
- `app/` — the command line tool: file system, processes, prompts, watching.
- `tests/` — tests of the library.
