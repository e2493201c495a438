# relay

The relay of a proximity voice chat. A game server pushes who is online and who
is within earshot of whom; browsers log in with Steam, connect, and are sent
the voices that they may hear, each in a slot that was set up once.

`src/` is the relay as a Verus library: it decides, and what it decides is
stated in contracts and proved.

| module | what it holds |
|---|---|
| `config` | the settings file, its defaults and what is refused |
| `proto` | the messages and the constants of the protocol |
| `auth`, `openid`, `sha256` | signed pushes, logins, sessions |
| `roster` | rosters, audibility graphs, and what a push leads to |
| `sfu`, `slots`, `sdp` | the forwarding table and its slots |
| `signal` | which connection speaks for whom |
| `state` | how pushes, connections and the forwarding loop act on each other |
| `tls` | which connections reach the HTTP server |
| `hearing` | what holds of rosters, graphs and forwarding taken together |

Not proved, but believed: that reading a TOML text gives the same document, or
the same message, whenever it is read (`config::parse_toml`). The JSON value of
`serde_json` is carried through and never looked into.

`app/` is the program around the library: sockets, TLS, clocks, random bytes,
files and JSON. It has no WebRTC engine, so offers find no transport.

`tests/` runs the library on concrete values.
