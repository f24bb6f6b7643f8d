# automata

Cellular automata and falling-sand physics on an unbounded grid, as a library
verified with Verus, and a window to play with them.

* `src/` is the library. Its contracts say what every function returns or
  changes, and the proof functions named `law_*` state what holds of several
  of them together.
  * `rule`: rules in B/S notation. `life`: a rule on a torus. `chunk`, `world`:
    a rule on the unbounded grid, which is stored sparsely.
  * `material`, `tick`, `physics`, `scene`: falling sand. `tick` describes one
    tick, `physics` carries it out.
  * `stack`: sequences of rules, with undo and redo.
  * `picture`: pictures that are stamped into a world.
  * `pacing`, `simulator`, `panel`, `theme`: the controls and what is shown.
  * `chance`, `scatter`, `text`: random decisions, random fillings and strings.
* `tests/` runs the library.
* `app/` is the window. It holds what works in floating point (the camera and
  the clocks), reads files, and draws with GPUI.

Random decisions are drawn with `rand`: a generator stands for the words that
it will give out, and the contracts say what is drawn from it. Pictures are
decoded with `image`. The functions marked `external_body` in `chance` and
`picture` make those calls and say what is taken for granted of them.
