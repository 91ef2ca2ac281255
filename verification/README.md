# monkeynuthead-upnp

A small UPnP client/server: SSDP discovery over UDP and a device description
served over HTTP. The protocol logic is a Verus-verified library; the
networking around it is ordinary Rust.

## Layout

- `src/text.rs`: character-level models of trimming, searching, ordering,
  ASCII case and decimal numbers, with executable versions proved against them.
- `src/ssdp/`: SSDP messages: the parser (`parser.rs`), the M-SEARCH and
  discovery-response builders (`message.rs`), the responder's and the client's
  decisions (`server.rs`, `client.rs`), and the laws that tie them together
  (`properties.rs`): the responder reads back what the client writes, answers
  exactly the searches it should, the client reads back its reply, and text
  after a message's first blank line never changes how it parses.
- `src/http/`: the device description document (`device_description.rs`), the
  HTTP client's URL, request and response handling (`client.rs`), and their laws
  (`properties.rs`): fields written into a document are read back from it, and
  a client fetching the served document gets it back exactly.
- `src/logging.rs`: one-line payload previews for packet logs.
- `src/checks.rs`: the check runner: its steps, whether the strict-mode
  setting is on, whether cargo's subcommand listing names an installed
  subcommand, and the decision function that runs the required steps in order,
  runs optional ones when installed, and skips them (or fails, in strict mode)
  when they are not; `app/` runs the processes it asks for.
- `app/`: the programs (`ssdp-client`, `ssdp-server`,
  `device-description-server`, `run-checks`, chosen by the first argument):
  sockets, environment, logging setup.
- `tests/`: tests of the library.
