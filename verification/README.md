# roco_nav

Map navigation over a game's window: where the player is on a large map, found
from pictures of the round minimap, and the way to the next point of a route.

`src/` is the library. Every function in it has a contract that Verus proves,
except the wrappers around outside calls in `pixels` and `text`, whose contracts
are taken on trust and say so.

| module | what it holds |
|--------|---------------|
| `binary32` | single precision numbers by their bit patterns: arithmetic, order, conversion, and when results are exact |
| `angle` | angles held within half a turn |
| `pixels` | pictures as bytes, and the operations that come from `image` and `imageproc` |
| `shares` | when every pixel of a resampled side gets a share of the side |
| `capture` | which window is the game's, the square of the minimap, the mask |
| `circle` | finding the round minimap by voting |
| `locator` | finding the minimap on the map by normalised cross correlation |
| `direction` | the heading of the player's arrow |
| `worker` | the worker's turns: requests, tracking, patience, reporting |
| `state` | what the worker and the window share |
| `route`, `resource` | points to visit, points of interest |
| `ui` | the window's model: routes, camera, heading, what is drawn |
| `overlay` | drawing the arrow over the game |
| `launch` | command line, self test |
| `config` | settings and their defaults |
| `spot`, `text` | geometry and text |

Numbers in `src/` are `Binary32`, which agrees bit for bit with hardware single
precision, except in the bits of a NaN, which hardware leaves open. Sines, exponentials and other functions of the platform's
mathematical library are computed in `app/` and handed over as values.

`app/` is the program around the library: files, the screen, windows, threads.

`tests/` runs the library, with hardware arithmetic as the yardstick.
