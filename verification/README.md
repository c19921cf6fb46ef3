# quic-ech-proxy

A QUIC proxy for Encrypted ClientHello (ECH, RFC 9849) in split mode, with a
verified core. The proxy holds the ECH keys, decrypts the inner ClientHello
from a client's Initial packets, and sends it on to a backend in an Initial
packet of its own. All other packets pass unchanged.

- `src/` is the library, verified with Verus. Each function states what it
  returns and when it fails; general properties are stated as public proof
  functions next to the definitions that they speak of. `src/lib.rs` lists the
  modules.
- `app/` is the program around it: the command line, the sockets, and HPKE from
  the `hpke` crate.
- `tests/` runs the library on concrete values.

The primitives that packets are protected with come from `ring` and `aes`, the
check of DNS names from `rustls-pki-types`. What the library takes for granted
of them is written at the wrappers in `src/initial_keys.rs` and
`src/ech_config.rs`. HPKE is a trait, `hpke::Hpke`, which the program implements.
