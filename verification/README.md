# MorAnima

Blink, talk and background effects for still character pictures, as a Verus
library and a desktop program around it.

- `src/` is the library. Which pixels an effect draws and in what order, what a
  polygon edit, a shortcut or an export step does, and what the user is told is
  stated in contracts and proved. The colours of closing lids, glowing particles
  and moving backgrounds are reckoned in floating point by the program; the
  library says where they go.
  - `canvas`, `compose`, `cover`, `codec`: pictures, compositing, scaling, files
  - `poly`, `trace`: outlines, and how the user traces them
  - `background`, `blink`, `talk`, `motion`, `viz`, `frame`: the effects
  - `fold`, `audio`: sound and its loudness
  - `export`, `notes`, `keys`, `color`, `seed`, `text`: exporting, what the user
    is told, shortcuts and small readers and writers
- `tests/` runs the library, with single-precision curves where it takes any.
- `app/` is the window, the dialogs, the calls of `ffmpeg`, and the
  floating-point curves that the library is driven with.

Times, coordinates and levels are floating point in the program. The library
never looks into them: it takes the outcomes of comparisons, whole cells, or a
function from the caller, and its contracts speak of that function's results.
What it believes of the `image`, `base64` and `rand` crates and of the standard
library stands above the few functions that call them.
