# zk_llm_gateway

A privacy-preserving gateway for language-model inference, with its relay and its
personal-agent client. The rules of all three are a library that Verus verifies;
the programs around it do the input and output.

## Layout

- `src/` is the library. Every function states what it returns or changes, and
  Verus proves it. What a function promises over several calls stands in public
  proof functions named `law_...`.
- `app/` holds the programs: `gateway`, `relay` and `client`, as subcommands of
  one binary. It serves HTTP, keeps the replay store and the session files, calls
  the model provider, and scores search hits, which takes floating point.
- `tests/` runs the library with the real outside crates.

## What is trusted

Calls into outside crates stand behind small functions marked
`#[verifier::external_body]`, each with a doc comment that names the outside
function and says what is claimed of it: `crypto.rs` (base64, ChaCha20-Poly1305,
HKDF, SHA-256, X25519, randomness, identifiers, wiping), `json.rs` (JSON values,
numbers, reading and writing), `redaction.rs` (regular expressions), `actum.rs`
(URL schemes), `text.rs` and `clock.rs` (characters, strings and the clock of the
standard library).

## What holds

- What is sealed for the gateway opens at the gateway, and the answer opens at the
  client; every ciphertext of a class has one length (`envelope.rs`).
- A key of the replay store is good for one call of the provider, the reservation
  is durable before the call, and nothing gives a key back (`gateway.rs`,
  `replay.rs`).
- A ticket that a request carries is bound to exactly that request, in whatever
  order its members are written (`types.rs`, `agent.rs`, `tickets.rs`).
- Redacted text comes back as it was, and no term that the user wants redacted
  leaves the client, under the conditions that the laws name (`rehydration.rs`,
  `disclosure.rs`).
- A prompt is within the budget of its class and holds no more than the configured
  number of recent messages (`prompt.rs`).
- A session's file stays in its directory and names its session (`manager.rs`).
