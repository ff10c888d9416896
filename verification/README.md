# filework

The logic of a dual-pane file manager, written in Verus and proved against
its contracts: commands and keymaps, job states and progress, locations and
typed paths, localisation catalogues, themes, a hex editor (piece table,
undo history, editing session, search, clipboard formats), image writing
and verification, and the file-system decisions (archive extraction safety,
tar listings, folder comparison, folder sizes and usage breakdowns, host
keys, SFTP sessions, what a directory entry is).

- `src/` is the verified library. Its functions state in `ensures` what
  they return or change, as far as the values they are given decide it;
  where a stream, a clock or another thread decides, the contract says what
  holds whatever comes back. The laws that relate several functions stand
  as public proof functions named `law_*`.
- `tests/` runs the library on concrete values.
- `app/` is a small command-line program around the library: it reads the
  disk and the network, hands plain values to the library, and prints what
  the library decided.
