# yml_feed

The verified core of a YML catalog exporter.

- `src/feed.rs` rewrites feed documents into the catalog: the first element
  of a kind (a category, an offer) is copied through quick-xml, with
  `picture` renamed `bibi`, prices dropped, and links moved into a
  `destination-url-do-not-send-traffic` tag. `feed_run` states the pieces
  written over the events that quick-xml reads, `copy_documents` wraps the
  copies of many documents, and `law_copy_is_balanced` shows that the copy
  of a well-formed document is one balanced element.
- `src/xml.rs` is the boundary with quick-xml: reader and writer held
  opaquely, and the trusted contracts of the calls made into it. `render`
  states the exact bytes a writer lays out for a sequence of pieces, with
  or without indentation.
- `src/scan.rs` is the chunk scanner for the export-file settings answer
  and for the category and offer lists of a feed.
- `src/offers.rs` filters the offers of a feed into a new catalog.
- `src/query.rs` builds the settings request; `src/text.rs` and
  `src/bytes.rs` hold string and byte helpers.

`app/` holds the three programs around the library (file and network I/O,
the directory walk, printing).
