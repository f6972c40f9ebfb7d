# kota

Coordination of multi-user bitcoin multisig custody. The platform never holds key material and
never signs: every participant signs on a device of their own. What it does is to collect the
keystores of a wallet, to build the document of a proposed spend, to validate what signers send
back, to finalize the transaction, and to keep a record of who did what.

The library in `src/` is written in Verus. Every function states what it returns and changes, and
the laws that hold over several calls are public proof functions (`law_..`).

- `primitives`, `bytes`, `hex`, `text`: identifiers, content addresses, texts and their order.
- `address`: addresses, the scripts they stand for, and dust limits.
- `psbt`: partially signed transactions. `codec` is their binary frame, `fields` what the fields
  mean, `validation` the check of submissions and stored documents, `merge` how signatures are
  put in, `crypto` signature hashes and signature checks, `order` the order of fields, `laws`
  what holds of all of these.
- `wallet`: keystores and descriptors, the wallet as a list of events, the transaction of a spend
  and its document.
- `psbt_session`: the signing session as a list of events, proposals, and coins that two sessions
  lay claim to.
- `storage`: the content-addressed store.
- `jobs`: building a document, finalizing, and taking in what is seen on the chain.
- `coordination`: proposing, handing out the unsigned document, taking in a signed one, and
  importing a wallet twice.
- `api`, `keygen`: the texts that cross the interface, and keystores from seeds.

What is left to the crates `bitcoin`, `miniscript`, `sha2`, `base64` and `uuid` stands behind small
functions whose contracts are believed; the doc comment of each names what it calls and what is
claimed of it.

`app/` is the service around the library: the command line, Postgres, the job scheduler and the
GraphQL API. `tests/` runs the library with real keys and documents.
