# yugen_render

The host half of the game's drawing: what is drawn, where, and in which order.

`src/` is the library, every function of it verified with Verus. It works on integers, text and the
bits of binary32 numbers, and says of each function exactly what it returns.

| Module | What it holds |
|---|---|
| `sprite` | Art records to one strip of pixels, and the tables that pick a tile of it |
| `mobs` | The bestiary's art, the pools of creatures and shots, and where each is drawn |
| `player` | What a step of the player is spent into, and the quads of the figure |
| `particles` | The slot pool, its generator, its presets, its motion and its two passes |
| `sky` | The gradient and its dithered block grid, the stars, the discs, the ridges and their mesh |
| `shear` | The figure's quads and the part of a strip each shows |
| `sound` | The synthesiser, the bank's files, and the queue of a frame |
| `settings` | The options file and what is written into the game from it |
| `scenes` | The scene and the pause |
| `pin` | Golden files as hex |
| `number`, `rounding`, `arith`, `order`, `whole`, `fixed` | Binary32 numbers by their bits: their order, how they are rounded, their arithmetic and the order it keeps, where it is exact, and their text |
| `text` | Text by its characters |

A public proof function whose name starts with `law_` states something that holds of several
functions together.

`app/` is the renderer around the library: the Bevy plugins, the files, and the sines and square
roots, whose results it hands to the library as plain values. `tests/` holds the library's tests,
which hold its arithmetic against the machine's.
