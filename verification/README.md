# SEN – Secure Encrypted Notepad (verified core)

SEN keeps text documents encrypted with a keyfile instead of a password.
This crate is its core, written in Verus: every function in `src/` carries a
contract, and Verus proves each one but the small trusted wrappers around
outside crates.

- `crypto` – the encrypted file format (`SED2` magic, salt, sealed data,
  keyfile hash), key derivation from the keyfile, and decryption errors.
- `history` – a document with its versions: snapshots, soft deletion,
  trimming to the history limit, reverting, the auto-save slot, and the
  framing of the history section inside a file.
- `config_crypto`, `settings` – protection of the configuration file and of
  the paths it keeps.
- `editing`, `text`, `search` – comment toggling, indentation, Enter, cut and
  copy; character and byte positions; find and replace, and the highlighted
  pieces each line is drawn in.
- `theme`, `fonts`, `file_tree`, `session`, `app_state`, `ico`, `batch` –
  themes and colors, font choice, the folder tree, session decisions, the
  debug log, the icon file, and the names the batch converter writes.
- `strings`, `bytes`, `clock` – string helpers, byte helpers, and time stamps.

`app/` holds what Verus does not see: file and keychain access, JSON and TOML
(de)serialisation, SVG rendering, and the icon generator `main`.
Outside crates are reached only through small trusted wrappers whose
contracts say what their documentation promises.
