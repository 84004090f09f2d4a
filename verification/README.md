# irohsion

A UDP stream is sent over several network interfaces at once and put together again at the other
end. This crate holds the decisions behind that, each with a contract that Verus proves:

- the wire format of packets, parity frames, repair requests and health reports
  (`protocol`, `health_report`);
- what the client sends for each payload and over which paths (`split`, `strategy`, `sending`,
  `fec`, `repair_cache`);
- what the client does when a path fails or comes back (`path_link`, `path_events`);
- how the server puts packets in order, gives up gaps, recovers losses and asks for repairs
  (`receive`, `tracking`, `reorder`, `reorder_model`);
- where replies and health reports go (`routes`, `server_health`, `server_flow`);
- what is shown and printed (`client_ui`, `client_ctx`, `client_view`, `server_ui`, `server_ctx`,
  `server_view`, `rates`);
- keys, options, chats, pictures, OBS and the remote control (`keys`, `options`, `chat`, `preview`,
  `obs`, `remote`).

Properties that span several functions are public proof functions whose names begin with `law_`;
those about whole flows stand in `reorder_laws`, `reorder_flows`, `reorder_sources` and
`sending_laws`.

`app/` is the program around the library: the network, the terminal, Bluetooth, other programs that
it runs, and the shares of the paths, which are floating-point numbers.

Times are nanoseconds on a clock that never goes back, unless a name says otherwise.
