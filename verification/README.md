# bursts

A fireworks visualizer for a terminal screensaver: rockets climb over a city
skyline, burst into sparks, light up the windows, the stars and a centered
logo, and fade out.

The crate is written in Verus. `src/` is the verified core; every function
there has a contract that Verus proves:

- `cell` — terminal cells and clearing the grid.
- `geometry` — row-major cell indices of a `cols` by `rows` grid.
- `skyline` — the city: building heights and lit windows, raising
  buildings, window twinkle (only inside buildings), and drawing the skyline
  from the bottom row up.
- `logo` — overlaying the centered logo text, clipped to the grid.
- `scene` — the star field size and glyphs, plotting rockets and particles
  (sparks only in open sky and over empty space or flare strokes), the
  explosion core and glow streak, and the two-stroke star flares.
- `launch` — the launch rules: rocket caps by launch rate, waves that end in
  a quiet sky once they reach their cap, the colour pick, burst glyphs, and
  taking exploded rockets out of the sky in order.

Colours, brightness, positions and the motion of rockets, sparks and
explosions are floating-point work. It lives in `app/`, together with the
host services (random numbers, system status, monitor layout, logo
placement, the light model) that the show reads through the
`env::Runtime` trait. `app/` hands the core plain values and closures for
the per-cell colours, and the core decides which cells are drawn and how.

`tests/` runs the core on concrete frames.
