# ssak

A console toolkit for filter test data (bubble point, air permeability,
differential pressure logs, fractional efficiency), built around a library
whose text handling and decisions are proved with Verus.

- `src/` — the verified library:
  - `text.rs`: whitespace, trimming, splitting into fields and lines with
    the meaning of `str::trim`, `str::split` and `str::lines`;
  - `columns.rs`: finding a named column in a tab-separated header;
  - `merge.rs`: reading an efficiency export into header lines and rows,
    merging an upstream and a downstream file channel by channel, and the
    name proposed for the result;
  - `exports.rs`: the series of the differential-pressure log, the
    efficiency table and the per-sensor measurement file, as text;
  - `prompts.rs`: cancelling with `q`, counts and numbers typed at prompts,
    picture file names;
  - `labels.rs`: menus, series colours and markers, legend labels, the
    Student table;
  - `config.rs`: the input and output folders.
- `app/` — the program: prompts, files, JSON settings, floating-point
  statistics and the plots.
- `tests/` — tests of the library, including checks against the standard
  library's string functions.
