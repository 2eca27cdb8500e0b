# opus_rs

The Opus audio codec as a verified library: everything between the bytes of a packet or
file and the numbers that a signal is made from, proved with Verus. Signal processing in
floating point stands around it, as ordinary Rust.

## The library (`src/`)

* `range` is the entropy coder. `range::symbols` proves that the decoder reads what the
  encoder wrote, symbol by symbol, with the same range at every step; `range::cost` bounds
  what a symbol costs.
* `celt` is the transform layer: tables and modes, the energy envelope, the bit
  allocation, pulse codebooks, band shapes, and the decisions of encoder and decoder.
  `celt::coder` writes a frame with what the signal decides on the way, and
  `celt::bands::encode` its band shapes. `celt::frame` and `celt::coder` prove that the
  decoder reads of a frame what the encoder put into it, also where the frame was shrunk
  on the way (`celt::shrink`). `celt::budget` proves that what is written before the
  allocation, and the last energy bits, stay within the frame; whether the band shapes did
  is told with the frame.
* `packet` takes packets apart, `ogg` reads and writes files of them.
* `encoder` and `decoder` are the two ends of the codec without the signal: settings,
  mode decisions, plans for each frame, concealment of losses, redundancy.
* `config`, `experimental` and `lpc` hold the rules of the smaller parts.

A function that works on a signal in the end returns a plan in plain numbers here; what
it needs to know of the signal, it takes as plain numbers.

## Around it (`app/`)

Transforms, filters, analyses and synthesis in floating point, and the Python module.
The coder of the low band is a trait there.

## Tests (`tests/`)

Ordinary tests of the library, by area.
