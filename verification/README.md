# relay

Relay's core as a verified library: the Mihomo profile model and renderer, the private
source store, the runtime decisions around the Mihomo kernel, the system-proxy command
plans, and the redacted diagnostics log. Every function in `src/` carries a contract, and
Verus proves each one except the few trusted items that wrap standard-library calls (marked
`#[verifier::external_body]` or `assume_specification`), whose contracts are assumed. The
laws that span several functions are public proof functions.

## Layout

- `src/profile.rs`: secret URLs, names, profiles and their validation.
- `src/render.rs`: deterministic Mihomo YAML, with the quoting law of its scalars.
- `src/subscription.rs`: recognition of subscription URLs and `vless://` share links.
- `src/store.rs`, `src/qx_record.rs`: identifiers, file names and the versioned record
  formats of saved sources, with their read-back laws.
- `src/sources.rs`: refresh intervals, store and preview errors, imported rules.
- `src/runtime.rs`: kernel log redaction, reconnection schedule, runtime input choice.
- `src/diagnostics.rs`: the bounded, redacted event log and its line format.
- `src/logs.rs`: the log search, the summary line and the time of day of an entry.
- `src/system_proxy.rs`, `src/helper.rs`, `src/tray.rs`: system-proxy plans, privileged
  helper replies and launch shape, the tray icon.
- `src/text.rs`: the character-level text model that the contracts are written in.
- `app/`: the launcher, the files on disk, the clock and the external commands.
- `tests/`: executable checks of the library on concrete values.
