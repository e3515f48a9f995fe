# windlass

The host's side of the protocol that Klipper microcontrollers speak, verified with Verus.

- `src/` is the library. Each function states what it does in `requires` and `ensures`, and Verus
  proves it.
  - `encoding`: arguments of messages on the wire, and their types
  - `frame`: frames, their checksum, and finding them in a stream of bytes
  - `queue`, `transport`: the messages that wait, and the state of the link: acknowledgements,
    retransmissions, and what to do about each event
  - `messages`: declarations of messages, reading messages by them, and formatting output
  - `dictionary`: the messages that a microcontroller declares
  - `identify`: fetching the dictionary
  - `mcu`: handlers for messages that come in, writing messages, requests and their replies
  - `text`, `string_map`: strings, and a map keyed by them
- `app/` connects the library to tokio, to the clock and to serde. It also has the estimate of the
  round trip time, which is floating-point arithmetic, and the macros that declare messages.
- `tests/` runs the library on concrete values.

Times are nanoseconds from a start that the caller picks.
