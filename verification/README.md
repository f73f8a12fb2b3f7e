# saddle_ai_utility_ai

Utility-based decision making for ECS agents, split in two.

`src/` is the decision core, written in Verus and proved. It never computes
with real numbers: scores, thresholds and deadlines reach it in their
binary32 encoding (`Real32`), which it only orders and classifies, using
integer operations on the encoding. On that basis it proves

- `binary32`: numeric and total ordering, NaN and finiteness tests, clamping
  to the unit interval;
- `selection`: the selection strategies (best score, top-N draw, first above
  a threshold) and, for the score-weighted draws, exactly which candidates a
  draw runs over; the seed mixer; rankings and their uniqueness;
- `scheduling`: which agents are due, most overdue first, within the frame
  budget;
- `arbitration`: priority tiers, tier thresholds and the fallback action;
- `transition`: completion, interruption, commitment and hysteresis holds,
  and when a change of the active action is announced;
- `scoring`: cheap-first consideration order, the multiplicative
  short-circuit, suppression reasons, cooldown restarts, target lookup;
- `tracing`: bounded action history;
- `sorting`: the stable keyed sort the modules above share.

`app/` is the Bevy plugin around it: components, messages, the asset loader,
the systems that read the world, the response curves and the score
composition arithmetic (all of which compute with real numbers), calling the
core for every decision.

`tests/` exercise the core on concrete values, including checks that its
orderings agree with native number comparisons.
