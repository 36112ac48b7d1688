# stellar_sim

A main-sequence stellar structure simulator: a Henyey (Newton-Raphson)
solver for the four structure equations on a Lagrangian mass grid, with
hydrogen burning, convective mixing and tabulated opacities.

- `src/` is the verified library (Verus). It holds the logic that works on
  integers and text: the order keys of table axes (`order`), bracketing a
  value on a sorted axis (`bracket`), the opacity file format (`text`,
  `table`), the convective mixing zones (`mixing`) and the layout of the
  residual vector and of the block-tridiagonal Jacobian (`residuals`).
- `app/` is the program around it: command-line arguments, file reading,
  JSON output, and all floating-point physics and numerics, which call the
  library for the decisions above.
- `tests/` runs the library on concrete inputs.
