# Fleet Commander

A space battle for many players in two dimensions: a server that simulates the battle twenty times a
second, a client that shows it, and a generator of placeholder sprites.

## Layout

- `src/` is the library, verified with Verus: the numbers, the simulation, the talk between server
  and client, the client's phases and controls, everything that it draws and plays, and the painting
  of the sprites.
- `app/` is the program around it: sockets, encryption, serialisation, the window, the speakers and
  the files.
- `tests/` runs the library.

## What is proved

- `single` holds IEEE single precision numbers in integers, and proves every operation correctly
  rounded.  Sines, powers and random draws come from outside through `oracle`, which keeps a ghost
  record of what was asked and told; each contract says which questions are put, and what the
  library makes of every reply.
- Every function of the simulation equals a mathematical step of a `World`.
- `soundness`: whatever clients send and however many ticks the game runs, ids stay distinct, and
  the hull, shields, fuel and torpedoes of every living ship stay within the limits of its class.  A
  tick may be of any length up to about two times ten to the power of 37 seconds, where a reactor's
  refill becomes infinite.
- `helm`: no ship ends a tick faster than its class may be, or with another heading than its pilot
  aims at, up to a stated rounding (`precision`).
- `crew`: as long as entity ids last, every living player has a ship in the world, and no tick
  changes a planet or leaves anything that has outlived its time or used up its range.
- `play`: what `soundness` and `crew` say holds of every world that a game comes to.
- `rules`: the rules that players know, such as that shields absorb damage before the hull does, and
  that nobody is told where another player's cloaked ship is.

## Running

    fleet_commander generate-assets
    fleet_commander server "Sector 7"
    fleet_commander client
