# stepsort

Sorting algorithms that run one small step at a time — bubble, insertion,
selection, shell (Knuth's gaps), heap, quick (Lomuto, explicit stack) and
bottom-up in-place merge sort — so that several of them can share one slice
and be interleaved, and the number of steps a combination needs can be
measured.

The library (`src/`) is written in Verus and verified:

* every sorter's `sort_step` is specified exactly, as a function from state
  and data to the next state and data, keeps the multiset of elements and
  the state's fit to the data (so that no step can fail);
* every sorter states what it keeps while it runs alone on a slice, proves
  that a finished sorter leaves the data sorted, and gives a bound on the
  steps left that each step lowers (`Sorter::lemma_step`);
* from a new sorter on `n` elements, the data is sorted after
  `n (n + 1) / 2 - 2` steps (bubble), `n (n + 1) / 2 - 1` steps (insertion,
  selection, quick), `(n - 1) * ceil(log2 n)` steps (merge) or `n * n` steps
  (shell), and stays sorted afterwards; heap sort reaches sorted data after
  at least one and at most `n * n` steps;
* each step changes the data in a stated way: at most one exchange (two for
  heap sort, one rotation for merge sort); for every sorter but heap sort, a
  step that changes the data lowers the number of pairs out of order (for
  selection, quick and merge sort while the sorter runs alone on the data;
  for bubble and insertion sort by exactly one);
* `sorter::run` interleaves sorters in rounds and reports the first round
  after which the data is sorted.

`benchmark` computes the combinations of sorters the benchmark runs
(`combo_masks`, `combo_members`) and totals their step counts (`tally`).

`app/` holds the benchmark program (random data, parallel runs, a plot) and
the terminal animation, whose rounds, changed positions and glyphs come from
`visualize` in the library. `tests/` exercises the library.
