# ferrum

The spreadsheet engine of FerrumGrid as a verified library: the formula
language, references and lookups, the dependency graph and the order of
recalculation, the sheets of a workbook, undo and redo, keyboard navigation,
and the spreadsheet file it writes. Every function carries a contract that
Verus proves.

Arithmetic on numbers is floating point and is not part of this library:
reading, comparing and adding up numbers is the caller's work. Where a
decision needs the outcome of such a step, the function takes that outcome
as an argument and decides the rest.

## Layout

```text
src/
  coord, text, value        cells, ranges and their spellings; errors; text
  lexer, numeral, parser    formula text to a tree
  ast, operand, resolve     the tree; references and arrays; what they denote
  functions, criteria,      the function table; COUNTIF-style criteria;
  lookup, position, logic   INDEX and the lookups; MATCH; AND/OR/XOR
  conditional, inspect      the cells SUMIF/COUNTIF total; IS*, TYPE, COUNT,
                            and the branch IF, IFS and CHOOSE take
  text_functions            LEFT, MID, SUBSTITUTE, TEXTJOIN and the rest
  cell, reads               what was typed into a cell; what a formula reads
  graph, recalc             who reads whom; what an edit recalculates, in order
  sheet, sheets, workbook   sparse cell storage; named sheets in tab order
  history                   undo and redo
  navigation, interface,    the active cell and selection; keys; the text
  harness                   picture tests read
  palette                   colour tokens
  crc32, zip, xml,          the file: checksums, the archive, XML, the fixed
  package, worksheet        parts, and the part for each sheet
tests/                      one file per module
app/main.rs                 a command line that writes a workbook
```

Each law the library keeps is a `pub proof fn` beside the functions it
speaks of, named `lemma_...` after what it states.
