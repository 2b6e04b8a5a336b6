# dataplane

The decisions of a mesh VPN data plane, written and proved in Verus.

- `src/peer_map.rs`: the peers, by id and by node key, kept in an in-memory `redb` database.
- `src/store.rs`: what is taken on trust of `redb`.
- `src/packet.rs`: what the packet filter is told of a packet, read with `etherparse`.
- `src/filter.rs`: which decrypted packets reach the local device.
- `src/groups.rs`: packets in groups, and the peers they go to or come from.
- `src/dataplane.rs`: a pass over outbound packets, inbound packets or timers, as a machine that
  asks for one thing at a time and takes the answer.
- `src/passes.rs`: what holds of whole passes.
- `src/transport.rs`: a transport between peers over one between node keys.
- `app/`: the machine with a tunnel, routers, filters and timers around it, and the asynchronous
  transport.
