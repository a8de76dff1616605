# ubpkg

`ubpkg` installs upstream binaries (for example those attached to GitHub releases) by
running recipes written in Starlark.

- `src/` is the verified library (Verus):
  - `git`: what `git ls-remote --tags --refs` is asked and how its answer becomes the
    sorted list of tags and the latest tag;
  - `version_order`, `versions`: GNU version order (through `vsort`) and a verified stable
    sort;
  - `github`: GitHub repositories, releases and assets, their URLs and how they are shown;
  - `repo`: loading a recipe from the recipe directory embedded with `include_dir`;
  - `runner`: parsing a recipe as Starlark before it is run;
  - `base`: file contents as text, where binaries are installed and with which mode,
    (only under `~/.local/bin`), `Content-Length` values, and the file name of a downloaded asset;
  - `text`: characters, strings and UTF-8.
- `app/` is the program around it: command line, running git, downloads, archives,
  the file system and the Starlark interpreter.
- `tests/` runs the library on concrete values.
