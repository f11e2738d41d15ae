# meridian

Portfolio tracking for Nordic markets: broker imports, quotes, allocation, rules and phone
alerts, a basket search over the Oslo, Stockholm and Copenhagen lists, and a small JSON API.

The decisions are a Verus library under `src/`, each public function with a contract that pins
its result down and the promises that span functions stated as `law_*` proof functions:

- `config`, `universe`, `energy`: market scopes and their suffixes, the shipped listings, the
  energy and shipping drivers and how the listings measured against them are labelled.
- `import`: decoding a broker export (byte-order marks, UTF-16, Latin-1), its separator, its
  columns, Norwegian decimal numbers, and the search terms a fund name yields.
- `json`, `quotes`, `history`, `calc`: JSON as plain values, the quote cache and its refresh
  policy, the hits a search response body yields, where a
  symbol's history lives and which day a bar is on, which holdings can be valued at all, and
  which holdings make up each asset class.
- `optimize`, `discover`, `outliers`: which symbols enter a returns matrix and over which days,
  which exchange rate values which day, the baskets a search enumerates and how its window is
  split, the outlier report's windows, and the bookkeeping of grouping holdings that move
  together.
- `rules`, `alerts`: rules as sentences, what each rule and each alert switch asks to be
  compared and under which key, hits and firings, the quiet window, old and missing prices, and
  which firings are news.
- `server`, `shell`, `update`, `ids`, `store`: token comparison and routing, reply headers and
  body limits, the launch page, version keys and the newest release, the checksum gate and when
  a download may be installed, identifiers, and what loading the store does with a missing,
  unreadable or damaged file.

`app/` is the program around it: the HTTP server, the network and file work, the clock, and the
floating-point statistics (valuation, covariance, weights, the basket search's scoring, the
outlier measures), which call into the library for every decision. `tests/` runs the library
on concrete values.
