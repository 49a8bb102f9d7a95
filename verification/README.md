# add-rsi

Appends Wilder RSI columns to monthly kline files such as
`BTCUSDT-1s-2024-01.csv`. Every row keeps its leading columns and gets one cell
per window; files are replaced after a confirmation, or copies are written
beside them as `.rsi.csv`.

`src/` is the library, verified with Verus: which files of a directory are
inputs, in which order and in which groups they are taken, what a look at a
table tells, what comes out of a row, where it goes, and what is shown of it
all. Its functions work on bytes and plain values, and their contracts say what
comes out for which input, errors with their texts included, and how many rows
each step through a table reports. Public proof functions whose names begin with
`law_` state what holds across functions, for example that the files of a
directory, with the state carried from month to month, are one run through all
their rows.

The contracts end where others' work begins:

- What records bytes hold, and what bytes rows become, is the business of the
  `csv` crate. The contracts name its results and state that what is written is
  read back, unless it starts with a byte order mark; they do not spell the
  format out.
- The index is written over a trait of arithmetic operations. A contract says
  which operations are made on which operands, not what an operation gives, so
  that it leaves open what number stands in a cell, and whether an average stays
  finite. Where a law compares two conversions, it asks that like operands give
  like results. For `f64` that is so, with numbers that compare equal, or are
  both NaN, taken as alike.
- The order of paths is that of their components, as on Unix; path prefixes of
  other systems are not told apart.

`app/` is the program around it: the command line, directories and files,
threads, progress bars, and `f64` as the number type. `tests/` runs the library
on tables and directory trees in memory.

```sh
add-rsi                               # the default BTCUSDT directory
add-rsi -d ../data/ETHUSDT -n ETHUSDT # another symbol
add-rsi --all --carry --jobs 5        # all symbols, state carried by directory
add-rsi --auto                        # only what was not converted yet
add-rsi --copy                        # copies beside the originals
```
