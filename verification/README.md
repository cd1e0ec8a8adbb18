# c4

Load configuration from folders, files and in-code strings or values into
one deep-merged value, with every leaf traceable to the source it came
from.

- `src/` is the library, with its contracts proved: the value model and its key
  order, the deep merge (later sources override earlier ones; objects
  merge, arrays and scalars replace), dotted keys with array suffixes,
  the table stage (`kv` and `db` layouts, typed cells including nested
  `array` and `csv` cells), the env/ini/csv text formats, the json/jsonc/yaml/toml documents (the
  outside parsers read the trees; what a tree means is decided here), the value
  validators (dates, times, network addresses, MACs, UUIDs), provenance
  tracing, the loader's decisions (extension claims, load order, sheet
  selection and merging), the command line's decisions, and a writer
  for `.xlsx`/`.ods` workbooks in a stored ZIP container.
- `app/` is the command-line program: argument handling, file and folder
  I/O, the spreadsheet reader, custom formats and layouts (user
  callbacks), float text, and the output serializers.
- `tests/` exercises the library from outside.
