# envcache

Caches secrets resolved from 1Password (`op read`) so that a shell does not pay for
the lookups on every start. The cache is refreshed when forced, when its files are
missing, when the secrets file changed, on the first use of a new day, and after a
time to live.

Layout:

- `src/` is the verified library (Verus): the secrets file's format (`secrets`), the
  post-processing of looked-up values (`resolve`), the cache and metadata files and
  the refresh rules (`cache`), the printed output (`output`), default paths
  (`config`), and the text and number handling they share (`text`, `number`).
  Each public function states what it returns; the proof functions state the laws
  (what a cache or metadata file reads back as, what the decimal text of a number
  parses to, when a cache is stale).
- `app/` is the command-line program: argument parsing, the files, running `op`.
- `tests/` runs the library on concrete values.
