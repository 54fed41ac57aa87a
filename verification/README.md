# image_to_pure_css

Renders a raster image as a single `<div>` whose inline style paints each
pixel row with a one-pixel-high CSS `linear-gradient`.

- `src/` is the verified library (Verus):
  - `color_utils` — the `Rgb` type, shortest hex notation of a color, RGBA input;
  - `gradient_builder` — run-length encoding of a row, hard-edged gradients,
    the binary search for linear stretches, smooth gradients;
  - `css_assembler` — background color guess (an `fxhash` map of color counts),
    the byte-exact CSS document;
  - `number_text` — decimal digits (through `itoa`) and thousands separators;
  - `cli` — command-line arguments, unsigned number parsing, output file name.
- `app/` holds the command-line program and the browser entry point: file I/O,
  image decoding and scaling with the `image` crate, and the floating-point
  check that a stretch of pixels is close to a straight line.
- `tests/` exercises the library on concrete inputs.
