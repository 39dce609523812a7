# superworm

A TCP port-mapping tunnel. Two endpoints, each of which can only be reached,
are joined by a relay (the *hole*). A mapping on one endpoint listens at one
address; each client that connects there is carried through the tunnel to a
destination that the other endpoint connects to.

`src/` is the library, verified with Verus: it decides, and touches no socket.

| module     | what it holds |
|------------|---------------|
| `frame`    | the frame format: an eight-byte big-endian length, then the payload |
| `stream`   | what becomes of frames that are sent and received in pieces; the laws of framing |
| `msg`      | the tunnel's messages, and the framing context of a connection (`MsgCtx`) |
| `queue`    | data on its way to a socket |
| `port`     | the two ends of a mapped connection |
| `mapper`   | the listening side of a mapping |
| `table`    | tables keyed by addresses |
| `endpoint` | one end of the tunnel: routing, and answers to the command line |
| `hole`     | the relay between two endpoints |
| `tunnel`   | the laws of the whole way, from one endpoint over the relay to the other |
| `cli`      | the course of one command |
| `addr`, `text`, `error` | addresses and how they are written, numbers as text, failures |

Each part is told what happened and says what to do next, so its rules are proved
for every course of events. The functions whose names begin with `law_` state what
holds of the parts together: that what is sent is received, that bytes cross the
tunnel whole and in order, that a reply finds its client, that messages are routed
and requests answered in the order in which they came.

`app/` is the program around the library: sockets, tasks, channels, the command
line, and the encoding of messages. `tests/` holds the library's tests.
