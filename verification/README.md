# lotus

A ledger of signed envelopes, replicated between peers. Every envelope names
the one before it; the namespaces of a version are what applying its envelopes
from the root leaves. The library is written in Verus: what each function does
stands in its `requires` and `ensures` and is proved.

## Layout

- `src/` is the library.
  - `digest`, `path`, `subkey`, `value`, `msg`, `envelope`: what an envelope
    holds. `order`, `text`, `tree`: sorted maps, characters, and walks over
    what a value holds. `version`: what a build calls itself.
  - `storage`: the `Storage` interface, a store in memory, and a store over
    rows of a database. Both keep versions side by side and log the envelopes
    that were seen. How rows from elsewhere hang together is audited before
    they are relied on; what each carries is read when it is asked for.
  - `state`: the ledger (what may be applied, and what applying does), the
    chain (which branch is followed), the change feed, and the rules of the
    reserved namespaces. Where envelopes follow the same parent, the one with
    the lowest digest is followed, of those that apply; neither the length of
    a branch nor the weight of its signatures counts.
  - `sync`: how two peers find where their chains part and stream what one of
    them lacks. Both sides are state machines; nothing here does I/O.
  - `render`: envelopes as text for a person.
  - `web`: what a browser of the ledger shows and writes, short of the HTML.
- `tests/` runs it.
- `app/` is the program around it: the command line, HTTP and HTML, the
  database file, and the codecs. It reads a ledger from its file; a write takes
  the daemon that holds the node's key, and is refused without one.

Properties that span several functions are public proof functions, mostly in
the files named `laws.rs`, in `state/converge.rs`, `state/movement.rs`,
`state/untouched.rs`, `sync/together.rs`, `render/literal.rs` and
`render/width.rs`.

A call into another crate stands behind a function marked
`#[verifier::external_body]`, whose comment says what is believed of it. They
are in `text.rs`, `storage/log.rs`, `state/nodes.rs`, `web/location.rs` and
`web/json.rs`.
