# pbox_speedtest

A Cloudflare IP tester and speed-test tool whose logic is verified with Verus.

- `src/` — the verified library:
  - `text.rs`: trimming (Unicode whitespace), splitting, joining lines,
    character comparisons;
  - `number.rs`: decimal text to unsigned integers, with std's error kinds;
  - `ip.rs`: IP addresses, their order, and IPv4/IPv6 text parsing;
  - `cidr.rs`: CIDR block expansion with a size limit;
  - `sorted.rs`: strictly increasing address sequences (one listing per set);
  - `ipset.rs`: address sets in a `BTreeSet`, listed in address order;
  - `ip_list.rs`: choosing the list's source and reading its entries;
  - `cli.rs`: the speed test's command-line settings;
  - `measure.rs`: time budget and byte counting of a timed download.
- `tests/` — tests of the library on concrete values.
- `app/` — the programs: network measurements, file/URL/stdin reading,
  printing; `speedtest` as first argument runs the speed test.
