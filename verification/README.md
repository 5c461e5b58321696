# sigyn

A local store of per-project environment variables, with values encrypted
under a master key kept in the macOS keychain, and a command line that
previews a project's environment or runs a command with it.

`src/` is the verified library:

- `normalize`, `text`, `order`, `sort`, `format`: how names, environment
  labels and values are normalised and quoted, and the orders in which
  projects, entries and values are listed.
- `store`, `operations`, `entries`, `import`, `preview`: the store's tables,
  each operation as a specification over them, and the snapshots and
  previews read from them.
- `crypto`: how a value is sealed and opened (AES-256-GCM-SIV, base64).
- `session`, `master_key`, `keychain`, `tray`, `ipc`, `cli`: the unlock
  session, the decisions about the master key and the device's answers, the
  menu-bar item, the bridge to the desktop app, and the command line.
- `consistent` and `laws`: what every operation keeps, and what each
  operation leaves to be read.

`app/` is the command-line program: it reads the SQLite database into the
library's store, asks the device for authentication and the keychain for the
key, and prints or launches what the library computes.
