# glpi_inventory

The verified core of a desktop explorer for the software inventory of a GLPI
server: it aggregates what GLPI reports about software, versions,
installations, computers, licenses and agents into per-software summaries,
filters and sorts them, keeps dated snapshots of the inventory and compares
them, and reads GLPI's history for installs and uninstalls.

Layout:

- `src/` — the library, written in Verus. Every function carries a contract
  over a mathematical model of its data (`Seq`, `Set`, `Map`, spec functions)
  and is proved against it. Calls into `chrono` and a few `std` functions go
  through small trusted wrappers whose contracts name what they return.
  Public proof functions (`lemma_*`) state properties that span several
  functions or calls.
- `tests/` — ordinary Rust tests of the library on concrete values.
- `app/` — the desktop program around the library: the egui window, the
  GLPI REST client (reqwest), the background worker, file storage and the
  CSV / Excel / JSON exports, and the reading of the local clock, whose day
  and time it hands to the library. Beyond ordering the computers of a
  drop-down list by name, it holds no rule of its own: it reads and writes,
  and hands plain values to the library.
