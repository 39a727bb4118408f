# joedlna

A filesystem-first DLNA/UPnP AV media server. The protocol logic lives in a
library whose behaviour is stated in Verus contracts and proved; a thin
program around it does the I/O.

## Layout

- `src/` — the verified library:
  - `config.rs`: configuration model and its validation;
  - `catalog.rs`, `scan.rs`: the in-memory catalog, its stable path-derived
    object IDs, and the scanner that builds it from directory listings;
  - `bookmarks.rs`: resume positions;
  - `soap.rs`, `tokens.rs`, `xml.rs`: SOAP request parsing (over
    `quick-xml`'s tokenizer), ContentDirectory / ConnectionManager
    actions and DIDL-Lite output;
  - `description.rs`: device and service descriptions;
  - `events.rs`: GENA subscriptions, renewals and notifications;
  - `ssdp.rs`: discovery messages, M-SEARCH parsing and answers;
  - `http.rs`: byte ranges, content features, device UDN, filesystem-event
    filtering, rescan scheduling and watch planning;
  - `order.rs`, `text.rs`: string order, sorting and text helpers.
- `tests/` — tests of the library.
- `app/` — the command line, sockets, HTTP server, filesystem walking and
  watching, and serde/TOML loading.

Verify with Verus on `src/lib.rs`; the tests and the program build
with Cargo against the library.
