# json_simple_obfuscator

Partially hides the values of sensitive JSON fields, keeping their shape:
digits become `1`, upper-case letters `A`, other letters `a`, and
everything else stays. Values that would share a replacement are stepped
forward (`aaaaA`, `aaaaB`, ...), so distinct values always get distinct
replacements, and the values are replaced in the documents' text, keeping
their layout; the names of object members are never rewritten, so running
the tool again on its output collects exactly the replacements, which the
table then gives to themselves (the output stays as it is).

The library under `src/` is verified with Verus:

- `chars` – character classes and lower-casing;
- `obfuscate` – the obfuscated form of a value and the next candidate form;
- `order` – the order of strings, sorting values without repeats;
- `mapping` – the table from values to replacements and how it is built;
- `sensitive` – sensitive field names and collecting their values from a
  JSON document;
- `matcher` – the multi-pattern search (`aho_corasick`) the replacer uses;
- `text` – facts about UTF-8 text used to cut it at match positions;
- `members` – where the member names of a JSON text lie;
- `replacer` – replacing the values in a text where they stand on their own;
- `rerun` – a second run on the output changes nothing.

`app/` is the command line program: it reads and parses the files
(`serde_json`), reports progress (`cliclack`), and writes the results.
