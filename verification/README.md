# wwsim

Simulates possible outcomes of the WorldWarBot game from its current real-world
state, and keeps that state up to date by replaying the game's published rounds.

The game logic is a library verified with Verus (`src/`):

- `graph` — breadth-first structure of the territory map and the attack-target search;
- `state`, `gamestate` — who owns what, per-country counts and the countries left;
- `game` — conquest, capitulation, riot, one turn and a whole simulated run;
- `replay` — the rules a published round must satisfy, and how it changes the state;
- `reset` — reading the country list and renumbering it for a new game;
- `standings` — tallying and ranking the winners of simulated runs;
- `calendar`, `text`, `country`, `topology`, `rounds` — dates, text handling and the
  game's data files and records.

`app/` is the program around it: command-line flags, files and HTTP requests,
parallel runs, the report and the chart. `tests/` exercises the library on concrete
inputs.
