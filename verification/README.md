# garment_orient

Orientation logic for packing garments on fabric with a nap: every piece of one physical garment
faces the same way (0 or 180 degrees), while different garments may face either.

The library (`src/`) is written in Verus and proved. It holds no floating-point arithmetic: a
number that only has to be compared is kept as its bit pattern (`scalar::F32`), and everything
that is summed or measured comes in as a table.

| module | what it is about |
| --- | --- |
| `scalar`, `order`, `text` | comparing numbers, sorting indices, writing numbers |
| `grouped` | the description of garment groups, and whether it fits an instance |
| `layout`, `turning` | placed copies, the group counting invariant, turning copies over |
| `cluster`, `garments`, `partition` | which copies make up one garment |
| `optimizer::anneal` | pressure towards the majority of a garment, and the final projection |
| `optimizer::assignment`, `optimizer::resolve` | the exact re-solve of all directions |
| `optimizer::flip` | flipping one garment |
| `optimizer::disrupt` | swapping two large items |
| `optimizer::explore` | the exploration phase as a state machine |
| `optimizer::search`, `optimizer::run` | why garments stay whole, whatever the search does |
| `util::listener` | statistics and listeners |

The crate under `app/` drives the library on a layout: it reads positions and areas, does the
arithmetic, and carries out the moves.
