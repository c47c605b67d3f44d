# miner_net

The message and network logic of a small peer-to-peer network of miners and wallets,
verified with Verus.

- `src/text.rs`: text operations (padding, taking characters out, splitting, trimming,
  decimal numbers) with their specifications and lemmas.
- `src/network.rs`: the members of a network as a sequence of `(id, address)` pairs
  without repeats, their text form, and the operations that add and take out members.
- `src/miner.rs`: message frames (flag byte, padded address, padded id, text), the miner,
  and how it reacts to each message it receives (`Miner::handle_message`, specified by
  `reaction`).
- `src/wallet.rs`: the wallet's flags and messages.
- `app/`: sockets, threads and printing around the library.
- `tests/`: tests on concrete values.
