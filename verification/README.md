# vyges-fin

Density fill over the OpenDB design database: metal shapes placed in the gaps between real routing,
so that each layer meets the foundry's minimum metal density. The decisions are a library whose
contracts are proved by Verus; the program around it reads, writes and talks to the database.

```text
vyges physical fin density-fill design.odb --rules fill.json
```

## What it does

For each layer the rules mention, in order of the shape sizes given:

1. take the fill area (the core, or `--area`) minus the design's own metal, bloated by the
   fill-to-design spacing;
2. shrink then bloat by half the shape, which deletes anything too small to hold it and breaks big
   regions into pieces;
3. tile a fixed grid over each piece, keep only whole shapes, and place them;
4. subtract what was placed and try the next size down.

OPC fill, where a layer declares it, is a second pass that must also clear the fill just placed.
Fill is regenerated wholesale, never patched: existing fill is cleared first. A layer the rules do
not mention is skipped and reported.

## What is proved

A region is a set of unit cells. Every function states what it computes of such sets, of sequences
and of maps, and the modules ending in `_laws` state what holds of the whole:

- every fill is a whole shape of a declared size, its long side along the routing direction, inside
  the area, clear of the design by the stated spacing, and on a mask of its layer;
- no two fills on a layer overlap, and OPC fill clears the fill placed before it;
- two fills of a pass keep the spacing, unless pruning cuts a piece in two and the two parts' own
  grids come close;
- what a run leaves in the database does not depend on the fill it found; a dry run writes nothing
  and plans what the run itself creates;
- a rule for a layer that the technology lacks is reported, by name;
- the exit status and the verdict say what happened.

## Limits

- The tiling is a fixed grid anchored at each piece's bounding box, so fill density is not maximal
  by construction.
- Pruning is conservative: it forbids fill where two pieces are closer than the fill spacing, which
  may exclude a position that would have been legal.
- Rules that name a layer the technology lacks are refused.
- A negative gap asks for none: fill touches, but never overlaps, what it would keep clear of. The
  grid's tiles then run into each other, and only a piece that ends with a tile on those sides holds
  a whole shape; a grid that does not advance holds none.

## Layout

| | |
| --- | --- |
| `src/cells.rs`, `geometry.rs`, `rects.rs`, `region.rs`, `outline.rs` | the plane |
| `src/config.rs`, `dbu.rs`, `json.rs`, `rules.rs`, `rules_laws.rs` | the rules file |
| `src/fill.rs`, `layer.rs`, `design.rs` and their laws | where fill goes |
| `src/options.rs`, `area.rs`, `run.rs`, `run_laws.rs` | a run of the command |
| `src/report.rs`, `events.rs`, `descriptor.rs` | what it says |
| `src/text.rs`, `names.rs` | texts, and maps from names |
| `app/` | files, the database and the exit status |

## Exit status

| | |
| --- | --- |
| `0` | filled: fill was placed and the database written; or vacuous, if there was none to place |
| `1` | refused: the design cannot be filled as asked (an empty fill area) |
| `2` | error: usage, unreadable database or rules, refused rules, no DBU scale, or a failed write |

## License

Apache-2.0.
