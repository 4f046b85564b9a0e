# uranker

Ranks the most frequent URLs of a large data set of URLs separated by line
feeds, by a map / reduce pipeline, and writes the top 100 to `report.csv`.

- `src/` is the verified library (Verus):
  - `ranker`: counting URLs in a block of text (`map_f`), the counting map
    `MyMap`, the bounded top list `MyVec`, and the reducers' folding of the
    mappers' records (`reduce_f`), with the hash that shares keys out among
    reducers;
  - `record`: reading and printing `[key, count]` records as JSON lines;
  - `reader`: the decisions of reading a giant file block by block
    (`IterReader`), with what reading a whole file gives (`whole_file`),
    the log of long URLs (`long_log`), batching URLs for the mappers
    (`UrlBatch`), and rolling split files (`DWriter`);
  - `mul_thread`: merging the reducers' lists (`MergeHeads`, with what a
    whole merge gives) and writing the report (`Ranking`);
  - `text`: building strings, decimal numbers.
- `app/` is the program around it: command line, files, channels and the
  thread pool.
- `tests/` runs the library on concrete inputs.
