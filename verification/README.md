# zgui

The decisions of a user interface's last mile, verified: what a frame has to redraw, what is
recorded to draw it, and how it reaches a display.

Every function under `src/` states what it returns, and Verus proves it. What the library promises
of several functions together stands beside them as public proof functions, named for what they
say.

- `geom`, `transform`, `text`: rectangles of whole pixels, matrices by their bits, numbers as text.
- `damage_set`, `paint`, `frame::damage`: what changed, what that reaches, and what is redrawn.
- `scene`: content hashes, opaque covers, shadows and backdrop filters.
- `frame`, `filter`, `buffer`, `layout`, `atlas`: a frame as a plan, and the commands it comes to.
- `raster`: vector content cut into bands and put into layers.
- `readback`, `present`: copying a frame out, and what each of a display's buffers is still owed.
- `boxtree`: which containers a change to a document is serviced by.
- `drm`, `gbm`, `scanout`, `platform`: cards, their buffers and the copies between them, as state
  machines that say what to do next and are told what came of it.
- `profile`: what one frame moved.

Numbers that are not whole are held as the bits of single-precision numbers: the library compares
and stores them, and the arithmetic on them is done in `app/`.

`app/` performs what the library decides: it talks to devices, descriptors, threads and graphics
interfaces. `tests/` runs the library on chosen values.
