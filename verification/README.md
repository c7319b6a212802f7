# xtp_rs

A transparent proxy for Linux (TPROXY) and a port forwarder. It takes TCP
connections and UDP datagrams in, decides for each whether it is sent on directly
or by way of one of several SOCKS5 servers, and chooses the server by scores that
change with what the servers deliver.

The rules, parsers and state machines are a library in Verus: each function has
its contract, and Verus proves the code against it. The program around it does
the input and output.

## Layout

`src/` is the library.

| module | what is in it |
|---|---|
| `cli` | the configuration, its defaults and what makes it valid |
| `state` | direct or server, for a destination; the state that a configuration makes |
| `routes`, `geosite`, `trie`, `net` | routes of clients, lists of domains, networks |
| `cache` | answers that are kept for some time |
| `sniff` | host names in the first bytes: TLS, HTTP/1.x, QUIC |
| `socks5` | the dialog with a server, and the frames of datagrams |
| `upstream` | scores of the servers, and the weighted choice among them |
| `tcp`, `activity_stream` | the way of a connection; connections that fell silent |
| `udp` | sessions, datagrams that wait for a host name, sockets for replies |
| `startup`, `socket_factory` | what is bound and started, with which options |
| `util`, `text`, `bytes`, `sorting`, `time` | what the others share |

`tests/` runs the library. `app/` is the program: arguments, files, sockets, tasks
and timers, the serialised form of the configuration, and the three formulas for
scores that need floating point.

## Trust

Calls into other crates and into the standard library go through small functions
marked `#[verifier::external_body]`; `String::push` and two constructors of
`Duration` have assumed specifications. `dashmap::DashMap` is a declared type, and
the two radix tries of `iptrie` are held in structs of their own in `trie`. The
comment above each of these says what is taken on trust. Where a result is a
function of the arguments but too long to state, it has a name
(`pub uninterp spec fn`), and the contracts of the callers speak of that name.

## Laws

Facts about more than one call stand as public proof functions next to the code
they are about, for example:

- a datagram framed for a server is read back as it was (`socks5`);
- a client in the network of a route uses the group of the pattern that decides for
  the domain (`state`, `routes`);
- no configured list, country or host name has a say in the modes that send
  everything to the servers or nothing (`state`);
- an answer about the first bytes of a connection does not change when more
  arrive (`sniff::http`, `sniff::tls`);
- pieces of a QUIC handshake make the same message in any order (`sniff::quic`);
- of all that ask for the session of a flow at once, one makes it (`udp`);
- no listener starts before all of them are bound (`startup`).
