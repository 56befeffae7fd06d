# asc-rs

Queries on Android packages, without unpacking them: which DEX file defines a
class, which code refers to a string, a type, a method or a field, and one class
on its own, rebuilt as a small and valid DEX file that a decompiler can read.

## Layout

- `src/` is the library. Everything in it is verified: parsing DEX files and
  their containers, indexing and searching bytecode, extracting one class, the
  bounded cache of DEX data, and the text that is printed.
- `tests/` runs the library on hand-built files.
- `app/` is the program around it: command-line arguments, the ZIP archive, the
  worker pool, the manifest decoder and the two decompilers.

## What is proved

The contract of each function says what it returns for each input that it takes,
errors included. Beyond that, the library states as lemmas what holds across functions.

- `minidex::fidelity` and `minidex::preserved`: what an extracted file keeps of
  its class when it is read again, from the names and the members to the code,
  the annotations, the static values and the debug items.
- `minidex::sorted` and `minidex::sound`: the tables of an extracted file are in
  canonical order, and the file is valid.
- `minidex::meaning`: every identifier keeps the names that it stands for.
- `minidex::unique`: an extracted file holds what its class needs and nothing
  else.
- `minidex::twofold`: extracting a class from its extracted file succeeds and
  gives the same file, byte for byte. The class must list no method twice, and
  where the file has more than 65536 strings the numbering of its code may fail.
- `minidex::sites`: a search finds in the extracted file the references that it
  finds in the code of the class. A method that the class lists more than once
  must have the same code each time, and no other class may hold code for it.
- `dex::references` and `dex::scan`: a scan finds exactly the sites that refer to
  its targets, in the order of the code, and a scan for fewer targets only leaves
  sites out.
- `dex::batch` and `service`: a search for several strings succeeds where the
  separate searches do, and finds what they find.
- `dex::probe` and `apk`: probing for a class agrees with listing them, and the
  listing of a package is that of its entries one behind the other.
- `apk::cache` and `apk::index`: the cache stays within its bound, but for a
  single entry that is larger, and looking a class up finds it wherever it is.

Calls into the standard library and other crates that the proofs rest on are
small wrappers, each with a comment that says what is taken for granted.
