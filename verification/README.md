# wl-harmonograph

An animated wallpaper for Wayland compositors with `wlr-layer-shell` (Sway,
Hyprland and others). It draws harmonograph patterns: two damped pendulums move a
pen along each axis. When a pattern is finished, the screen is cleared and a new
one begins with random parameters in the next color.

- `src/` is the library, verified with Verus. It computes in exact integers and
  fractions: the random parameters, the clock, the Catmull-Rom curve and its
  triangle strips, the colors and their order, the outputs and their scales, and what each frame
  does.
- `app/` is the program: the Wayland connection, EGL and OpenGL ES 2.0, the timer,
  and the floating-point functions that no exact number can stand for.
- `tests/` runs the library.

The colors are set by two environment variables:

```bash
# Foreground colors (comma-separated hex, cycles through them)
export HARMONOGRAPH_FG="#fb4934,#b8bb26,#fe8019"

# Background color
export HARMONOGRAPH_BG="#1d2021"
```

Besides the standard library, as `vstd` specifies it, the library trusts only the
generator of the `rand` crate: it takes for granted that a draw from a range lies in
that range.
