# fst_reader

A reader for FST waveform files, written and verified in Verus.

The library works on the bytes of a file in memory. Every function states in its
contract what it returns for every input, damaged files among them, over a model
of the format that is built from the bytes up:

- `primitives`, `values`, `section`, `locations` and `blocks` say what the parts
  of a file mean: integers, texts, value changes, time tables, chain tables,
  headers, geometry and blackouts.
- `wheel` and `data` say in which order the changes of a section are delivered,
  `pre_start` and `boundary` which values a search finds.
- `header`, `hierarchy`, `filter` and `reader` hold what a user calls.
- `gzip` and `compression` unpack compressed bytes. What the `miniz_oxide` and
  `lz4_flex` crates do is named there, not proved.
- `delivery` and `laws` hold what is proved of the library as a whole: that in a
  file whose sections hold the times they cover, the changes of a range are all
  delivered and no others, that a search finds the latest and the first values,
  that a `.hier` file makes up for a missing geometry.

`tests/` runs the library on small files built in memory. `app/` reads from
anything that implements `std::io::Read`, hands the changes to callbacks and
turns bits into floating-point numbers.
