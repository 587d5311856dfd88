# Mouse Jump

Jump anywhere on the desktop with one click, on KDE Plasma 6 with Wayland: a thumbnail of
the entire virtual desktop (all monitors) pops up at the cursor, and a click on it teleports
the cursor there. Escape dismisses it.

`src/` is the library, verified with Verus:

| module | what it holds |
|---|---|
| `rounding`, `number`, `double` | double precision arithmetic, on integers, with what it means in numbers |
| `scaling` | fitting a picture into a box, aspect ratio kept |
| `coords` | monitors, the bounding box of the desktop, mapping clicks to it |
| `layout` | the size of the overlay and where it appears |
| `render`, `screenshot` | pixels: decoding, scaling, borders, crosshair, composition |
| `overlay` | what the overlay shows and how it answers pointer and keyboard |
| `text` | lines, words and numbers in text |
| `kscreen`, `kwin`, `warp`, `commands` | what is read from and told to the tools of the desktop |

The functions named `law_...` state, and prove, what holds of the library as a whole.

`app/` is the program: D-Bus, Wayland, files and commands around the library. `tests/` runs
the library on concrete values, its arithmetic against that of the hardware.
