# rts_core

The rules and data structures of a real-time strategy game, verified with
Verus, and the engine glue around them.

- `src/` — the verified library:
  - `nav_grid` — navigation grid, Bresenham line of sight, path smoothing,
    nearest passable cell and A* search (`open_set` holds its priority queue);
  - `path_queue` — pending path requests, one per unit, and staleness checks;
  - `nav_dirty` — which building changes force a full grid rebuild and which
    are stamped one by one;
  - `spatial` — spatial hash grids and the deterministic order of query hits;
  - `stable_sort`, `terrain_ops` — the stable sort and the order in which all
    lockstep peers apply terrain edits;
  - `water`, `water_mesh` — water bodies as connected wet regions, found
    breadth-first, and their mesh topology;
  - `biome`, `fog` — biome patch painting and the explored layer of the fog;
  - `unit_ai` — the unit task state machine and automatic decisions;
  - `hud`, `build_menu`, `inventory` — control groups, event log, unit
    census, build menus, tech tree and item hand-over;
  - `group_panel`, `selection`, `squad_inventory`, `queue_panel`,
    `action_bar` — what the control-group slots, the selection panel, the
    squad inventory summary, the command-queue panel, the action bar and
    the units bar show, and the worker, recipe and storage rows of a
    building's panel;
  - `labels` — the stable alphabetical order of display labels;
  - `production` — refunds of cancelled training and unfinished
    buildings, the demolition refund preview, and recipe selection;
  - `teams` — teams and AI control from the skirmish setup.
- `tests/` — tests of the library.
- `app/` — world-space conversions, float computations and engine-facing
  helpers that call the library.

Floating-point values cross into the library as bit patterns or as the
booleans and integers the caller derives from them.
