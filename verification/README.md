# sound_dir

Shows from which side the sounds of a game come: four coloured dots, one per frequency
band, on a small strip at the top of the screen. Each dot drifts to the side on which its
band is louder.

- `src/` is the verified library. Verus proves the contract of every function in it but
  two, which make the outside calls named under "What is trusted".
- `app/` is the program around it: audio capture, the Fourier transform, the window, the
  tray icon, the hotkey service and the file with the settings.
- `tests/` runs the library on concrete values, many of them against native numbers.

## The library

| Module | What it holds |
|---|---|
| `number` | single-precision numbers by their bits: correctly rounded sums, products, quotients and roots, comparisons, conversions, and the laws of this arithmetic |
| `channel`, `gain`, `bands`, `analyzer`, `levels` | when a spectrum is due and of what it is taken; smoothing and gain of the bins; energy and direction of the bands |
| `sides`, `mirror`, `range` | which side sound points to, what exchanging the sides does, and what levels can be |
| `run`, `bounds` | an analysis over a whole stream: what exchanging the channels does to it, and that samples between -2 and 2 give levels that can be shown |
| `smoothing`, `easing` | the levels eased over time, how near they come to their targets, and the scale of the loudest band |
| `settings`, `layout`, `paint`, `room`, `middle`, `color` | where the strip is, the tracks and balls on it, and the shapes that are drawn |
| `overlay` | the state of the overlay from frame to frame: edit mode, saving, menu, hotkey |
| `keys`, `hotkey` | how keys are written, the capture and the registration of the hotkey |
| `tray`, `display` | the icons of the program, and the size of the window |

Numbers are `Single { bits }`: the contracts say of each operation which number is nearest
to the exact result, so a contract over `Single` fixes every bit of what is shown. Cosine,
exponential, power, the length of a complex number and the Fourier transform are native
functions whose last bits depend on the platform. The program takes them and hands the
results to the library, which says of what they are to be taken and what is made of them.

## What is trusted

- `str::to_uppercase`, in `keys`.
- `HotKey::new` of `global-hotkey` with a set of modifiers, in `hotkey`.
- The types `Key` of `egui`, and `Code`, `Modifiers` and `HotKey` of `global-hotkey`.
