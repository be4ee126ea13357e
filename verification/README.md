# oct

`oct` keeps an opencode configuration in step between machines: `oct push`
bundles the configuration files of this machine and sends them to a remote
store, `oct pull` fetches the bundle and writes it back (after backing up the
files it overwrites), and `oct back` lists and restores those backups.

## Layout

- `src/` is the verified library (Verus).
  - `pathname.rs`: paths held as text: their components, the order of
    paths, joining, stripping a leading directory, file names and extensions.
  - `paths.rs`: the candidate configuration directories, the choice of the
    active ones, and which files of them are configuration files.
  - `bundle.rs`: safe relative paths, bundle entries, the bundle and its
    digest, and the checks made before a bundle's files are written.
  - `backup.rs`: backup ids, manifest entries, where restored files go, and
    the newest-first order of backups.
  - `token.rs`: sync tokens; `codec.rs`: SHA-256, hexadecimal and base64;
    `config.rs`: the settings directory; `client.rs`: requests and error
    replies; `clock.rs`: the current time; `error.rs`; `text.rs`.
- `app/` is the command-line program around it: argument parsing, the file
  system, the environment, HTTP, and the JSON and TOML forms of the records.
- `tests/` exercise the library.
