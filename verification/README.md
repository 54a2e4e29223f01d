# vwbdd

A decision diagram engine with nodes of variable width, verified with Verus.

Nodes are LEB128-encoded records in an append-only byte arena, and refer to their
children by the distance back to them. The unique tables keep only offsets and
one-byte tags, and compare keys by decoding the node in the arena. Diagrams are
shipped as slabs (arena bytes and roots) and diffs (the bytes that extend a slab).

```rust
use vwbdd::{Manager, Slab};

let mut m = Manager::new();
let x = m.new_var();
let y = m.new_var();
let f = m.false_();
let t = m.true_();

let vx = m.make_node(x, f, t);
let vy = m.make_node(y, f, t);
let and = m.and(vx, vy);

let slab: Slab = m.slab_for(&[and]);
```

## What is proved

- Arenas hold shared, ordered and reduced diagrams, and every operation keeps them
  so. Two references of one manager are equal exactly if they stand for the same
  function.
- `ite` and the operations on top of it compute the function that they name, and
  leave exactly the arena, cache and counters that recursive expansion leaves. What
  the cache holds changes neither the arena nor the result.
- Collection keeps the diagrams of its roots and the bytes of the base, and leaves
  nothing in the tail that the roots do not reach. Collecting again changes nothing.
- Slabs, diffs and dumps are read as they were written.

## Layout

- `src/` is the library. `laws.rs` states what holds of it as a whole.
- `tests/` runs it.
- `app/` holds files, clocks, counters of the process and floating point, and the checks on values from
  outside.
