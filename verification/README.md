# aether

A workspace-based WireGuard manager for Linux. The library in `src/` holds
its logic, verified with Verus:

- `text`: whitespace, trimming, lines and words, searching, decimal numerals;
- `order`: lexicographic order of names;
- `conf_map`: a map from keys to values, one entry per key;
- `workspace`: settings, provider configs, the server list, the sorted list
  of provider configs, and the default route and interfaces;
- `generator`: reading a provider config and writing the WiFi and Ethernet
  connect configs with their routes; with the proofs that a connect config
  reads back as the provider config it was written from, that a listed
  server's index is the number of its connect configs, and that regeneration
  leaves the provider configs, and the order they are listed in, as they were;
- `wg`: reading the output of `wg show` (through the `regex` crate);
- `elevation`: the arguments of `wgctl.sh`, how the outcome of `sudo -n` and
  `pkexec` is read, shell quoting and the one-time installer;
- `tray`: the tray menu and what each entry does.

`app/` is the desktop shell: Tauri commands, the tray, the settings file,
reading the workspace folder, running `ip`, `wg`, `sudo` and `pkexec`, and
name resolution.
