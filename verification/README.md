# rudp

Messages over a datagram socket, each with the guarantee that its sender asks
for: none, order, or order and delivery. Messages are sent in sets. A set waits
for the deliveries that were promised before it, and within a set the order is
free.

The library is written in Verus, which proves the contract of every function but
the few that call outside: those in `src/clock.rs`, `src/wire.rs` and `src/udp.rs`
that ask the clock, byteorder or rand are believed to do what their comments say.

## Layout

- `src/mod_ord.rs`: sequence numbers, which go round
- `src/header.rs`, `src/wire.rs`, `src/message.rs`: what a datagram holds
- `src/config.rs`, `src/error.rs`, `src/clock.rs`: settings, errors, time
- `src/udp.rs`: what an endpoint asks of a socket, and a socket for tests that
  duplicates and jumbles
- `src/state.rs`: the mathematical model of an endpoint
- `src/endpoint.rs`, `src/set_sender.rs`: the endpoint, and sending in sets
- `src/laws.rs`: what holds across several operations
- `src/history.rs`: any number of calls, as events that happen to an endpoint
- `src/once.rs`: no sequence number is handed out twice, whatever the socket does
- `src/jumbled.rs`: messages that arrive in any order and more than once are
  handed out once each, set by set
- `src/drained.rs`: so they are by an endpoint on a socket that duplicates and
  jumbles
- `tests/`: tests
- `app/`: lets an endpoint work over a UDP socket of mio

## Use

```rust
let mut endpoint = Endpoint::new(socket);
endpoint.send(Guarantee::Delivery, b"alone in its set")?;
let mut set = endpoint.get_set();
set.send(Guarantee::Delivery, b"these two")?;
set.send(Guarantee::Delivery, b"in any order")?;
endpoint.resend_lost()?;
let payload = endpoint.recv()?;
```
