# cdg_player

The logic of a player for CD+G karaoke discs, written and verified in Verus: it
reads `.cue` sheets of multi-bin disc images, finds the data of their tracks on
disk or inside uncompressed ZIP archives, decodes their sound, and finds the
discs of a library folder.

- `src/` is the verified library. It does no I/O: it is told what was read, and
  says what to read.
  - `text`, `names`: text and file names.
  - `sheet`, `disc`: from the text of a sheet to the tracks of a disc.
  - `archive`: what the file references of a sheet stand for.
  - `cue`: tracks, and where their bytes lie.
  - `library`, `order`: the scan of a library folder, and its sorting.
  - `config`: the saved settings.
  - `paths`: paths of the file system, as opaque values.
  - `laws`: what holds of the library as a whole.
- `app/` reads and writes files around it.
- `tests/` runs it on concrete values.
