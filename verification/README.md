# safethrottle

A local TUN gateway that applies asymptotic per-domain outbound rate limits. Traffic to configured
domain families is captured through policy routing into a userspace TUN device and paced against a
soft per-minute limit. Nothing is rejected: requests only get slower as a family's budget shrinks.

## Layout

- `src/` is the library, verified with Verus. It holds the gateway's rules and state machines and
  does no I/O: it is told what happened and says what is to be done next.
  - `limiter` - the pacing of one family: free band, soft band, overflow into the next cycle.
  - `classify` - which family a host belongs to.
  - `sniff` - the server name in a TLS ClientHello.
  - `dns_cache` - the names that DNS replies give to addresses.
  - `tcp`, `udp` - what becomes of a connection, its admission, and of a datagram.
  - `route`, `dial` - the routing commands of the capture, and the search for the uplink.
  - `session`, `gateway`, `recovery` - starting a session, retrying, and giving up for the boot.
  - `config`, `decimal` - the configuration and its exact decimal numbers.
  - `names`, `text`, `command` - sorted name maps, character-level text, command outcomes.
- `app/` is the `safethrottle` command: arguments, the configuration file, sockets, the tunnel,
  commands, marker files and the clock.
- `tests/` runs the library.

Times in the library are nanoseconds on one monotonic clock, as 64-bit numbers.
