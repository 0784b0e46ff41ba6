# ffgl_plugins

The logic of a handful of video plugins, verified with Verus, and the code that puts it on
the screen.

- `CloudFlash` draws lightning behind clouds: a trigger queues a few strikes.
- `PulseBeam` sends pulses of light across the picture.
- `Segmenter` shows one slice, or a range of slices, of its input.
- `IsfFFGLInstance` runs a shader with mask files, to which it adds the distance from the
  edge of the mask.

## Numbers

The plugins compute in binary32. The library holds such numbers as `Single`, by their
encoding, and computes every operation on whole numbers. What an operation gives is stated
in `single.rs`: the exact result rounded to nearest, ties to even. So the contracts of the
plugins say exactly what the shaders are given. Two things that the format leaves open are
fixed: a result that is not a number is always the same quiet one, and of two zeros of
opposite sign the larger is the first.

## Layout

- `src/rounding.rs`, `src/single.rs`: rounding, and the operations on numbers.
  `src/single_facts.rs`, `src/single_order.rs`, `src/single_roots.rs`: when results are
  exact, within which bounds they stay, and how they follow the order of numbers.
- `src/distance.rs`, `src/edt.rs`, `src/mask.rs`: distance transforms of rows and masks,
  and mask pictures for shaders. `src/distance_facts.rs` and the end of `src/edt.rs` prove
  that squared distances are exact; `src/mask_facts.rs` says what prepared masks show.
- `src/cloud_flash.rs`, `src/pulse_beam_3.rs`, `src/pulse_beam.rs`, `src/segmenter.rs`,
  `src/isf.rs`, `src/mqtt.rs`: the plugins, the shader instance and the message listener.
  The `_facts` files beside them hold what is true over many calls.
- `src/color.rs`, `src/random.rs`, `src/slices.rs`, `src/slots.rs`, `src/host.rs`: what the
  plugins share.
- `tests/`: the library on concrete values, against the machine's own arithmetic.
- `app/`: GL, clocks, files and the broker.
