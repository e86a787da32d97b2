# hyctl

A command-line launcher for the Hytale game client: multiple accounts and
profiles, installed game versions, and starting the client or a dedicated
server.

## Layout

- `src/` — the library, written and proved with Verus:
  - `protobuf.rs`: protobuf wire-format readers (varints, keys,
    length-delimited fields, skipping);
  - `wharf.rs`: the wharf patch format; `plan_patch` turns a patch file into
    the list of file-system steps that install it;
  - `config.rs`: accounts (a map from label to account), profiles, installed
    versions, and the rules that pick an account, profile or version;
  - `auth.rs`: PKCE values, the OAuth redirect, token responses, the device
    flow's decisions, ID-token claims;
  - `download.rs`, `launch.rs`, `session.rs`, `versions.rs`, `cli.rs`: patch
    selection, download names and addresses, process arguments, version
    specifications and the command types;
  - `text.rs`: character-level helpers.
- `tests/` — tests of the library on concrete values.
- `app/` — the program: command-line parsing, HTTP, files and processes,
  around the library's decisions.
