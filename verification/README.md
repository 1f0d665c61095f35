# fyp_core

The PDF syntax layer of 4YouPDF with its behaviour stated in contracts and
proved by Verus: byte classes and token scanners of the lexer, the stream
filters, header detection and quick file facts, the byte scanning behind
cross-reference reconstruction, cross-reference stream rows, the spelling of
strings and names in written files, page selections, and the standard
security handler (ISO 32000-2, clause 7.6).

## Layout

- `src/` — the verified library. Each module states its functions over
  sequences of bytes or characters:
  - `lexer`, `parser`, `object`, `filters`, `decode`, `version`,
    `recover`, `xref`, `document`, `writer`: the PDF syntax pieces, from
    bytes to objects and back;
  - `pagetree`, `builder`, `cleanup`, `ops`: page operations (merge,
    extract, delete, rotate, split) and the cleaning of what a dropped
    page leaves behind;
  - `crypto`: key derivation of algorithms 1 to 13, opening a file with a
    password, ciphering and deciphering objects;
  - `hashing`, `ciphers`: the digests and ciphers of the RustCrypto crates,
    behind the only trusted items of those modules;
  - `revision_order`: the order of security handler revisions;
  - `encryption`, `cli`, `desktop`, `conformance`: what the command line
    and the desktop window report;
  - `bytes`, `text`: small helpers (byte sequences, decimal text).
- `tests/` — the tests, run against the compiled library.

Reading back what the writer produced (opening it again without repair,
in the clear, with its pages) is checked by the tests, not proved.
- `app/` — the `fyp` command line: reads files, prints what the library
  computes of them.

## What is proved, among others

- deciphering what `Decryptor::encrypt_with` produced gives the data back
  when the file key suits the cipher, which the key of an opened file
  always does for the ciphers of its revision (`law_opened_key_suits`);
  AES output is the initialisation vector followed by the padded data;
- the `/O` and `/U` values computed for a pair of passwords open the file,
  and so do the AES-256 entries, with the file key they wrap;
- what the writer spells as a string or a name, the lexer reads back;
- every file the writer lays out begins with the header of its version
  and ends with `%%EOF` (`law_written_file_frame`);
- RC4 is stated in full (key schedule and keystream), and ciphering twice
  with one key gives the data back;
- revisions compare as their numbers (`law_revision_order`);
- the decoders never produce more than their limit allows;
- page ranges partition the document, and an accepted selection names
  existing pages once each;
- the pages of a document are exactly those a depth-first walk of its
  page tree finds, in reading order, inherited attributes filled in and
  `/Parent` left out (`page_walk`), and reading them fails exactly when
  that walk finds none;
- a page operation refuses exactly the selections that name a missing
  page, name one twice or (for extraction) name none, and what it returns
  is a whole file as the writer lays it out, in the version of its source
  (the latest one for a merge); which pages that file holds is not stated;
- inflating what the zlib encoder made gives the text back
  (`law_flate_round_trip`);
- merging in the desktop window reports one outcome per file and the
  pages they bring, rewrites nothing (and succeeds) when no file merges,
  and returns only a rewrite whose declared table reads back without
  repair; so do rotating and saving;
- after a sweep, exactly the objects reachable from the trailer remain;
- a dictionary holds each key once, its keys in order (a type invariant),
  so the crypt filters of an `/Encrypt` dictionary are named once each and
  a rebuilt trailer never carries `/Prev`;
- cleaning takes out exactly the destinations, actions, named
  destinations and annotations that lead to a dropped page.
