# gorillas

QBasic GORILLAS as a Verus library and a small program around it.

- `src/qb` is a slice of QBasic: the EGA framebuffer with `PSET`, `POINT`,
  `LINE`, `PAINT`, `GET` and `PUT`, the Bresenham circle CIRCLE scales,
  text in the character fonts, the keyboard queue, `VAL`, and the `PLAY`
  music language. Each primitive states exactly what it does to the screen.
- `src/game` is the game: the seeded generator and `FnRan`, the banana
  sprites, the skyline and the wind, where the gorillas stand, the title
  and game over screens, number entry, turns and scoring.
- `app` is the program: the window and keyboard (minifb), the sound
  (rodio), the clock, and the parts that work in floating point: the
  banana's flight, CIRCLE's arcs, and the pictures drawn with them.

The character fonts are read at run time from `assets/fonts/ega8x14.bin`
and `assets/fonts/ega8x16.bin`; without them text prints as blank cells.
