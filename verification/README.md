# termwaves

A real-time audio visualizer for the terminal. It captures what the system is
playing, keeps a short history of each channel, and shows it as a landscape of
spectra in three dimensions, as a waveform, and as bars of a log-spaced
spectrum.

## Layout

- `src/` is the library, verified with Verus: sample decoding and the ring
  between capture and display, channel histories and their min/max summaries,
  the Fourier transform, the spectrum, the landscapes and their wireframes, the
  panels, the status line, and what every key does.
  - `float` and `arith`: floating-point values by their encodings, and the
    rounding operations as a parameter.
  - `audio`, `scope`: from stream bytes to envelopes.
  - `fft`, `dft`, `spectrum`: from samples to bands; `dft` proves that the fast
    transform is the discrete Fourier transform.
  - `terrain`, `mesh`, `grid`, `color`, `combined`, `view`, `anyview`: the views.
  - `layout`, `overlay`, `text`, `status`: what surrounds them.
  - `engine`, `app`: the application. `classic` is its plain edition.
- `app/` is the program around the library: the terminal, the PipeWire stream,
  and the machine's arithmetic.
- `tests/` runs the library.

## Arithmetic

The library never rounds. Comparing, clamping and selecting floating-point
values is done on their encodings, with exact contracts. Everything that rounds
(`+`, `sin`, conversions, and so on) goes through the trait `Arithmetic`.
Contracts say which operations are applied to which values in which order, and
hold for every arithmetic whose operations are functions of their operands.
