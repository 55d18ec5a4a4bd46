# mdbook_tracey

A verified library for an [mdbook](https://rust-lang.github.io/mdBook/)
preprocessor that turns [tracey](https://github.com/bearcove/tracey)
requirement markers (`r[req.id]` at column 0 or opening a blockquote line)
into styled anchors, optionally decorated with impl/verify coverage badges.

Layout:

- `src/marker.rs` — finding marker lines: the mask of code and HTML regions
  and the paragraph starts from pulldown-cmark's events, the `PREFIX[ID]`
  line form, rule IDs (parsed and displayed by marq).
- `src/render.rs` — HTML for a marker, its badges and popovers, escaping,
  and the stylesheet.
- `src/coverage.rs` — coverage by rule-ID base, built from tracey's forward
  dump.
- `src/lib.rs` — rewriting a chapter and a book, deriving the link template
  from tracey's configuration, sorting the list of missing rules.
- `src/config.rs` — the preprocessor's configuration and the parts of
  tracey's configuration that it reads.
- `src/version.rs` — the mdbook version check (semver) and its warning.
- `src/text.rs` — byte and string helpers over UTF-8 text.
- `app/` — the `mdbook-tracey` binary: command line, reading `book.toml`,
  tracey's config and JSON dump, and mdbook's stdin/stdout protocol.

Every function in `src/` is verified with Verus against its contract; the
calls into std, marq, pulldown-cmark and semver go through small trusted wrappers
whose contracts state what those functions do.
