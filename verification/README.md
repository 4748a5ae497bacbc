# group_files_into_dir

Groups the files of a directory into sub-directories named after keywords
found in the file names. The keywords are given on the command line, chosen
interactively from those that occur in more than one name, or taken from the
names of the directories already there.

## Layout

- `src/` — the verified library (Verus):
  - `text.rs`: strings as character sequences; splitting, trimming, substring
    search, decimal numbers, lowercase (through `str::to_lowercase`).
  - `libs/keywords.rs`: the file-name grammar (extension, bracket groups,
    delimiters), counting and ordering keywords, camel-case words, and the
    patterns that find a directory's keywords in other names.
  - `libs/extract_keywords.rs`: the plainer keyword rules.
  - `libs/counts.rs`: a map from keywords to counts with no keyword twice.
  - `libs/regexen.rs`: compiled regular expressions (`regex` crate) kept with
    their pattern.
  - `libs/parse_args.rs`, `parse_args.rs`: keyword lists and paths from the
    command line.
  - `libs/fs.rs`: which file goes into which directory, and the record of the
    moves made.
  - `libs/stdout.rs`: the lines the program reports.
  - `workflow/`: the keywords offered for selection; directories as keywords.
  - `cli.rs`: the command line and the mode it selects.
- `app/` — the program: command-line parsing, the file system, the terminal
  user interface and colored output, driving the library.
- `tests/` — tests of the library.
