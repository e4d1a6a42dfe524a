# nettoolkit

Three network tools whose logic is written and proved in Verus:

- **bgpq4** — expands AS-sets, route-sets and AS numbers through an IRRd
  server and prints prefix lists, access lists and AS-path filters for many
  router dialects.
- **dig** — builds DNS queries, reads DNS messages and prints them in the
  usual dig layout; can follow referrals from the root servers.
- **ipmap** — pings every address of an IPv4 block and draws a map of the
  answering hosts.

## Layout

- `src/` — the verified library. `bgpq4/` holds the prefix radix tree,
  the expander and the IRRd dialogue (a state machine that decides each
  request), the command line and the vendor printers; `dig/` the DNS wire
  format, the report, the command line and the referral walk; `ipmap/` the
  block reader, the `ping` probe and the map. `text.rs`, `inet.rs` and
  `ipv6.rs` hold shared text and address helpers.
- `app/` — the programs: sockets, processes, the async runtime and printing.
  They hand plain values to the library and act on what it decides.
- `tests/` — tests of the library on concrete values.
