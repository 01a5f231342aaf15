# net_scanner

A LAN scanner that shows used and available IPv4 addresses, with the
decisions of each scan written in Verus and proved against their contracts.

Layout:

- `src/` — the verified library.
  - `addr.rs`: IPv4 networks as an address and a prefix; the addresses a scan
    probes.
  - `text.rs`: dotted-quad, CIDR and MAC address text.
  - `config.rs`: scan methods, the configuration with its CLI overrides and
    clamps, and the subnets it resolves to.
  - `netinfo.rs`: interfaces, the default-route interface from the kernel
    routing table text, and the subnets scanned by default.
  - `scanner/`: the state of one subnet scan between its probes (ARP, ICMP,
    TCP, DNS, fingerprinting), ARP frames and replies, ICMP echo requests,
    TTL collection and the OS guess.
  - `state.rs`: scan progress, rounds of subnet results and the state that
    the web API reports.
- `app/` — the program around it: command line and config file, raw sockets,
  async probes, the scan loop and the HTTP API.
- `tests/` — tests of the library on concrete values.
