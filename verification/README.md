# Kintuba

A verified library for Bruker Nanoscope AFM images, and a desktop viewer around
it. The library reads `.spm` files (and those with numeric extensions), corrects
them for the instrument that recorded them, and computes everything that the
viewer shows: flattened and filtered height maps, line profiles, colours, scale
bars, plots and the mesh of the 3D view. Every function of it is verified by
Verus against a contract that says exactly what it returns.

## Layout

- `src/` is the library.
  - Numbers: `rounding`, `float`, `root` and `binary` define single and double
    precision numbers by their bit patterns and compute with them, `order` says
    what rounding keeps and `scaling` what a power of two does; `bignat`,
    `decimal`, `fixed` and `places` read and write them as text.
  - Files: `fields`, `header`, `channels`, `scale` and `samples` take a file
    apart; `spm` loads an image from it and `raw` an unprocessed scan.
  - Calibration: `calibration` keeps the factors of each instrument and `table`
    is their text format.
  - Processing: `poly` flattens, `smooth` and `filter` blur, `rolling` takes the
    background away (`opening` and `background` bound it), `profile` samples a
    line. `linearity` says that all of it is linear in the heights.
  - Pictures: `colormap`, `canvas`, `scalebar`, `plot`, `mesh` and `surface`,
    `camera`; `appearance` and `nearness` say what a factor on the heights leaves
    of the colours.
  - The viewer: `files`, `name_filter` and `folding` list a folder, `pointer`,
    `viewer` and `controls` hold the state of the window and say what each thing
    that the user does makes of it.
- `tests/` runs the library, on its own and against the hardware's numbers.
- `app/` is the window: input and output, drawing, and the Python module.

## What is not computed here

Exponentials, rotations, font outlines and distances on the screen come from the
platform. The library states which exponents it needs, and takes the results as
arguments; what it does with them is verified for every value.

## What is trusted

The pixels of a picture live in an `RgbaImage` of the `image` crate (`canvas`).
Of the standard library, `String::push`, `String::from_utf8_lossy`,
`str::to_lowercase` and `char::to_lowercase` are taken at their word.

## The laws

What holds of the library as a whole is stated by the proof functions whose names
begin with `law_`, each beside the functions it speaks of.
