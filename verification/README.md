# plc_relay

Tools for studying the traffic between an engineering tool and a PLC: TLS
man-in-the-middle proxies that rewrite byte patterns on the fly, a viewer
and an interactive monitor for capture logs, a capture replayer, and small
clients that speak the PLC's protocol.

- `src/` is the verified library (Verus): the trigger-driven replacing
  stream (`replace`), the two-way pattern replacer of the first proxy
  (`bridge`), the capture log format (`records`), the text renderings of
  messages (`formatters`, `render`), the list and key handling of the viewer
  and the monitor (`stateful_list`, `viewer`, `monitor`), the replay rules
  (`replay`), and the framing of PLC messages (`plc`).
- `app/` holds the programs themselves: sockets, TLS, files, the terminal,
  and the loops that feed the library and carry out what it decides.
- `tests/` runs the library on concrete inputs.
