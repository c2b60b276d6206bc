# fatx

The FATX filesystem of the Xbox and the Xbox 360, read and written by verified
Rust.

- `src/` is the library. It does no I/O of its own: a filesystem works on the
  sectors that have been handed to it, asks for those it still needs
  (`IoError::NotLoaded`), and queues the writes it makes. What every operation
  does to the contents of the disk is stated in its contract over `FsView`, and
  what holds of the whole is stated by the proof functions whose names start
  with `law_`.
- `app/` opens the device, carries the sectors back and forth and answers the
  requests of a mount.
- `tests/` runs the library against images held in memory.

The layers of the library, from the disk up:

| modules | what they hold |
| --- | --- |
| `device`, `align` | sectors, and reads and writes of a device that only takes whole ones |
| `bytes`, `variant`, `datetime`, `dir`, `fat` | what the bytes on the disk mean |
| `volume`, `chain`, `resize` | clusters and the chains they make up |
| `walk`, `slots`, `tree` | directories and their entries |
| `path`, `ops`, `file`, `fs` | the operations on paths and open files |
| `names`, `renaming`, `updates`, `contents`, `room`, `order` | what these operations do to each other |
| `disk`, `loading` | how what is held in memory stands to what is on the disk |
| `inode`, `attr`, `driver`, `choice`, `platform` | a mounted filesystem |
