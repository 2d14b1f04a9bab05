# tempo

Detects the tempo, the beat offset and the time signature of audio, and compares them
with the timing of osu! beatmap sets. The library under `src/` is verified with Verus:
every function states what it computes, and the proofs are part of the source.

## Numbers

Samples, tempos and offsets are double-precision numbers. `double::Double` holds the 64
bits of one, and its operations are written with integers against the definition of
correct rounding, so the contracts of the whole detection speak of exact values.
`tests/doubles.rs` compares them with the hardware on random numbers, bit for bit (but for
which bits stand for "not a number").

## Layout

- `rounding`, `double`, `arith`, `single`, `convert`, `precision`, `scaling`, `grain`: the
  numbers and their laws; `natural`, `decimal`, `numeral`, `display`: their decimal forms.
- `order`, `text`: sorting, sums and text.
- `window`, `onset`, `gapdata`, `polyfit`, `interval`, `bpm`, `offset`, `meter`: the
  stages of the detection; `lib` and `web` put them together. `phase`, `squares`
  and `strengths` hold laws of the offset, the fit and the meter: that the offset lies within
  the first beat, that normal equations give least squares, and that twice the strengths
  give the same meter.
- `osu`, `archive`, `eval`, `report`: ground truth of beatmap sets and the comparison.
- `decode`, `cli`: what to do with the packets of an audio file, and the decisions of the
  command line.
- `app/`: the programs around the library. They read files, decode audio, compute cosines
  and spectra, and print.

Trusted are the names for what the `zip` crate reads from an archive (`archive`) and
`String::push` (`text`).

## Usage

```sh
tempo <file> [--min-bpm 40] [--max-bpm 260] [--start 0] [--duration 60] [--json]
             [--no-subharmonic-preference]
tempo batch <folder> --out results.csv [--json]
osu-eval <folder> [--out report.csv | --table]
```

`--no-subharmonic-preference` is accepted and changes nothing: a preference for
subharmonics is not part of the detection.
