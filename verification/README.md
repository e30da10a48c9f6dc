# file_index

A small file search index. Every file path is split into lower-case tokens,
an inverted index maps each token to the files whose path holds it, and the
index is stored in the FIF binary format, which a reader searches by binary
search without decoding the whole file.

The library in `src/` is verified with Verus:

- `tokenizer`: splitting a path into tokens.
- `document`: a file of the index, and the final component of a path.
- `index`: building the inverted index from a list of paths.
- `fif`: the encoder; `fif::format` holds the byte layout, `fif::reader`
  the reader, `fif::roundtrip` the proofs that reading an encoded index
  gives back what was encoded, that term lookup finds exactly the terms, and
  that an AND search finds exactly the files whose path holds every query
  token, and `fif::properties` the proofs that the AND search ignores the
  order of the query terms and only narrows with more terms, and that the
  encoding depends only on the paths and on each term's posting list.

The reader never holds the file. It keeps the header and the file's length;
each read (a document path, a term, a posting list, a term lookup, an AND
search) is a task whose `step` asks for the bytes it needs, one request at a
time, and finally gives its result. Every request lowers a measure of the
steps left, so each task finishes; a read at or past the end of a table
finishes at once with `None`. A term lookup reads at most ⌊log₂ m⌋ + 1 of
the file's m terms, and every byte it asks for lies in the table entry or
the string of one of them. Each task also has a `run` that answers its
requests from a file held in memory.

`app/` is the command-line program: it walks the current directory, writes
`index.fif` once, answers the reader's requests from the file, and prints
the files that match the query.
