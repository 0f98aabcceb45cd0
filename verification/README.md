# pfsnitch

Per-application outbound firewall for FreeBSD. pf diverts outbound connection
attempts to a daemon, which finds out whose they are, applies a policy that is a
plain text file, and asks about what the policy does not settle.

`src/` is the library: every decision the program makes, with its contract,
proved by Verus. It does no I/O but reading the clock. Packets come in as bytes,
files as text and times as numbers, and what is to be sent, written or printed
goes out the same way.

- `divert`, `checksum`, `bytes`: packets, flows, and the reset that answers a
  denied connection.
- `dns`: names learned from the answers of name servers.
- `procinfo`, `resolver`, `kernattr`: which process owns a flow, from a scan of
  the sockets or from the kernel module.
- `policy`, `pattern`, `line`, `target`, `addr`, `words`: the policy file and
  what it says about a connection.
- `rulefile`: adding, listing and removing rules, and changing settings.
- `identity`, `seen`: hashes of binaries, and when a rule was last used.
- `daemon`: what becomes of a packet, when to ask, and what an answer changes.
- `apps`, `report`, `json`, `layout`, `order`, `cli`: what the commands take and
  print.
- `text`, `number`, `table`: strings, numbers and maps for the rest.
- `policy_laws`, `rulefile_laws`, `socket_laws`, `daemon_laws`: what holds of the
  library as a whole. The other modules keep their laws beside what they are
  about.
- `platform`: what is believed of the standard library without proof.

`app/` is the program: sockets, devices, files, processes and threads. `tests/`
runs the library on concrete values.
