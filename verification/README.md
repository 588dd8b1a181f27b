# rs-steam-updater

Bootstraps SteamCMD and downloads or updates every Steam app listed in
`settings.yml`, then relaunches Steam. The decisions of the tool are a
library whose functions carry Verus contracts and proofs; the program around
it (file and network I/O, processes, the Win32 dialog) is ordinary Rust.

## Layout

* `src/` — the verified library
  * `text.rs` — the character-level model shared by the rest: `str::lines`,
    `str::trim`, substring search, joining lines, decimal rendering, with
    the facts about them that the proofs use.
  * `vdf.rs` — registering a library folder in `libraryfolders.vdf` and
    listing App IDs in its `apps` block; the laws that the edit registers the
    library, lists every ID, adds no second library entry, and changes
    nothing when applied again.
  * `steam_cmd.rs` — SteamCMD location, the process to stop, update
    arguments, app manifest names and their `installdir`, the `steamapps`
    link plan, and how the SteamCMD archive unpacks (read with the `zip`
    crate).
  * `settings.rs` — settings checks and defaults, what a run does with each
    account, merging App ID lists without repeats.
  * `steam_api.rs` — resolving title patterns against the app catalogue
    (through the `regex` crate).
  * `dialog.rs` — the countdown dialog as a state machine, its label text
    and UTF-16 strings for the window system.
  * `run.rs` — the order of a whole run as a state machine, with the laws
    that Steam is stopped only after the dialog, an abort ends the run, the
    catalogue is fetched at most once, and the relaunch comes last.
* `app/` — `main` (which performs the steps of `run.rs`), reading
  `settings.yml`, the Steam Web API request, downloading SteamCMD and writing
  its files, running it, the Win32 dialog loop.
* `tests/` — tests of the library.
