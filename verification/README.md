# polly

An event manager for file descriptors, and a chat server that runs on it,
written and verified in [Verus](https://github.com/verus-lang/verus).

- `src/pollable.rs`: descriptors, what they can be watched for, and the
  operations that a handler can ask for.
- `src/readiness.rs`: the bits by which epoll names what a descriptor is ready
  for. They come from the `epoll` crate.
- `src/event_manager.rs`: who watches what, and which handler is told of which
  event.
- `src/protocol.rs`: what passes between a manager and whoever makes its system
  calls, and the model that the manager is proved against.
- `src/chat.rs`: the chat server.
- `src/text.rs`: numbers in decimal.
- `src/laws.rs`: what holds whatever is asked and however the system answers.

The library makes no system call. A manager that needs one returns a `Step`
that says which, and goes on from the answer; `app/` makes the calls.
