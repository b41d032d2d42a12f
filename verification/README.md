# allnodes

Client-side logic of the Allnodes validator service, written in Verus with its
behaviour stated in contracts and proved.

- `src/` is the verified library:
  - `tower`: vote lockouts and the vote stack a validator keeps;
  - `voting`: the voting patch (lockout checks, mostly-confirmed slots, vote
    bank selection, protection decisions);
  - `config`: the voting patch configuration and its text form;
  - `constants`: runtime-tunable constants, their overrides and how they are
    saved and loaded;
  - `mid`: machine identifiers and the masking of stored data;
  - `endpoints`: server endpoint lists, mirror selection, client version and
    the retry state machine for calls;
  - `flags`, `storage`, `bootstrap`, `formatters`, `validators`, `text`:
    service flags, stored records, bootstrap decisions, report formatting,
    argument validators and the string helpers they share.
- `tests/` runs the library on concrete values.
- `app/` holds what cannot be verified: I/O, the async runtime, command-line
  plumbing and the serde copies of the stored types.
