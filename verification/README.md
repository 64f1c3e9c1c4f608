# sniffnet (verified core)

The address logic of a network monitor, written in Verus and proved
against its contracts:

- `text`: splitting a text at a separator byte, and the digits, octets and
  hexadecimal groups of address texts.
- `ip_addr`: the `IpAddr` type and the reading of dotted-decimal IPv4 and
  colon-hexadecimal IPv6 texts (with `::` and an embedded IPv4 tail).
- `ip_format`: canonical address texts and the laws that tie them to reading.
- `ip_collection`: sets of addresses given by single addresses and ranges.
- `bogon`: the reserved ("bogon") address blocks and `is_bogon`, which names
  the first block an address written as text belongs to.
- `report_page`: the entry numbering and the sort order of the connection
  report pages.

`tests/` holds the tests.
