# Sorting Tutor

A library behind a web page that teaches sorting algorithms by showing every
step they take: the list as it stands, what was just swapped, the pivot or the
node being sifted, a one-line explanation, and performance figures
(comparisons, swaps, calls, and the stack of running calls).

The library is written in Verus and verified.

- `src/sorter.rs`, `src/sorter/`: bubble, selection, insertion, shell, heap,
  quick and merge sort. Each returns the list of its steps; the contracts state
  that the first step shows the input, the last shows it sorted, the in-place
  sorts only rearrange the list and change it only by the swap each step
  highlights, and the performance figures never go down. Each sort's own
  contract also fixes which steps it shows:
  - bubble and insertion sort: the exact swaps, given by the spec functions
    `bubble_swaps` and `insertion_swaps`; both stop after one pass on a sorted
    list and compare at most every pair;
  - selection sort: where each pass's swap stands, that it leaves the
    smallest values in front, and each comparison step, which marks the
    position looked at and the smallest so far and is kept out of the history;
  - shellsort: passes over Ciura's gaps, the exact exchanges of each pass
    (`shell_swaps`), each pass leaving the list sorted by its gap, and a
    sorted list left alone;
  - quicksort: every region is partitioned around its middle value exactly as
    the spec function `lomuto` says, in a fixed number of steps, and the
    regions come in the order `quick_order` gives: a region, then the part
    before its pivot, then the part after it;
  - heapsort: the exact swaps and comparisons (`heap_run`), with at most
    `3 n (log n + 1)` comparisons, and a heap shown at every step after
    building it; sifting a node down needs only its two subtrees to be heaps;
  - mergesort: each merge takes the sorted left half and the sorted right half
    of its region, and its steps follow the two, taking the left half's value
    on a tie; every step shows the whole list as it stands, with the merge
    written over its region.
- `src/recorder.rs`: the performance figures.
- `src/utils.rs`: the steps, their explanations, and the handing out of steps
  one at a time.
- `src/data.rs`: the lists to sort (sequential, uniform at random, in a given
  shape).
- `src/display.rs`: what the page computes to draw: bar heights, canvas sizes,
  the heap drawing's geometry, the speed slider and the history.
- `src/order.rs`: sortedness and rearrangement, with their lemmas.

`app/` holds the page itself, written with Leptos.
