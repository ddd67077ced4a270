# total_order

A node of a totally ordered multicast. Every message gets a final
`(sequence, message id)` key agreed between the nodes, and each node hands
messages out in ascending key order.

- `src/messages.rs`: the packet wire format (encoding, decoding, framing) and
  its round-trip laws.
- `src/queue.rs`: the delivery queue, a vector kept in ascending key order,
  with its map view and laws.
- `src/server.rs`: the ordering state of a node and the decision it takes on
  each packet, with the node invariant and its laws.
- `app/main.rs`: sockets, timers, the console and the message file.
- `tests/`: tests of the library on concrete values.
