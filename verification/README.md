# ui_commands

Verified core of a set of entity commands for a bevy user interface.

- `src/hierarchy.rs`: the lines that logging an entity hierarchy writes
  (indentation, branches, component short names, entity labels), with laws on
  their number and nesting.
- `src/theme_refresh.rs`: the order in which themes apply to an entity, the
  order in which their pseudo themes are merged, and what is written back.
- `src/pseudo_states.rs`, `src/stopwatch_lock.rs`: the pseudo states of an
  entity and the stopwatch locks on its flux interaction, with the commands
  that add and remove them.
- `src/text.rs`, `src/cursor.rs`, `src/ui_surface.rs`: the smaller commands.
- `src/entity.rs`: the one call into bevy that formats an entity identifier.
- `app/lib.rs`: the bevy extension traits for the cursor, hierarchy-log and
  naming commands, which read the world, call the library and log or write
  back its results. The text, pseudo-state, stopwatch-lock, theme-refresh and
  UI-surface commands have no bevy side here: the library holds their logic on
  its own data types.
