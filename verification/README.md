# none_shall_pass

Validates the hyperlinks of markdown files.

- `src/` is the verified library: the link grammar and scanner (`lookup`),
  the verdict on a link's request (`connection`), the command line
  (`parser`), the tally of a run (`squire`, `runner`), the file pattern
  (`files`) and character helpers (`text`). Each public function carries a
  contract, and the laws stand as public proof functions beside them.
- `app/` is the program around it: cloning the wiki, finding and reading the
  files, the HTTP requests on threads, logging and the JSON summary.
- `tests/` runs the library on examples; the link scanner is compared with
  the equivalent regular expressions of the `regex` crate.
