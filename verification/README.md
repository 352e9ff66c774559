# ssh2socks

The logic of a desktop tool for SSH tunnels built on `~/.ssh/config`: a
SOCKS5 proxy (`ssh -D`), local forwards (`ssh -L`) and remote forwards
(`ssh -R`), started and supervised with automatic reconnection, probed for
connectivity, plus a surgical editor for the Host blocks of the ssh config
and a key generator / importer.

## Layout

- `src/` – the library, verified with Verus. Public functions state their
  results in `requires` / `ensures` over spec functions and views; where an
  outside crate decides (random numbers, the cryptography of `rsa`, `ssh-key`
  and the dalek crates), the contract names the outside result or says what
  holds whatever it is, and the doc comment says what is left unsaid.
  - `text` – character-level helpers (trimming, splitting, numbers).
  - `models` – tunnels, their kinds and states, preferences.
  - `tunnel` – ssh arguments, port conflicts, backoff, the registry of
    tunnels with their live state, and the supervisor's decisions.
  - `progress` – where an ssh connection attempt is, read from `ssh -v`.
  - `probe` – probe URLs, the SOCKS5 and HTTP messages and their replies.
  - `ssh_config` – reading hosts out of a config.
  - `ssh_edit` – parsing, editing and rendering config files line by line.
  - `keys`, `keygen` – public keys, fingerprints, the key checks.
  - `reaper` – which leftover ssh processes may be stopped.
  - `platform` – decoding ssh's output.
  - `commands` – what the window's commands decide.
- `app/` – ordinary Rust around the library: files, processes, sockets, the
  async supervisor loop, and the commands a window would invoke, as plain
  functions. The window itself (widgets, tray, event loop, console hiding)
  belongs to a desktop framework that this crate does not depend on, so
  there is no `main` here.
- `tests/` – tests of the library on concrete values.

Laws that relate several functions are public proof functions named
`lemma_…` next to the functions they speak of.
