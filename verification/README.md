# opus_pure

The integer side of an Opus codec, verified with Verus, with the floating-point
and input/output parts around it.

## Layout

- `src/` is the library. Every function in it states in its contract what it
  returns or changes, and is proved to.
  - `toc`, `packet`, `repacketizer`: what a packet says of itself, and taking
    packets apart and putting them together (RFC 6716 section 3 and Appendix B).
  - `ogg`: pages, headers, comments, writing a stream and trimming a decoded one
    (RFC 3533, RFC 7845).
  - `range_coder`, `range_laws`: the entropy coder, and that what was written is
    what is read.
  - `celt`: the order in which a transform reads its input, and numbering pulse
    vectors.
  - `silk`: the fixed-point speech layer: side information, synthesis, loss
    concealment, comfort noise, stereo and resampling.
  - `decoder`: which layers decode a packet, a loss or a recovery, in what order
    and into which part of the output.
  - `config`, `encoder_info`, `parallel`: settings, what a header needs to know
    of an encoder, and how a long input is cut for several workers.
- `tests/` runs the library on concrete values.
- `app/` holds what works on floating-point samples, threads or a `Write` sink:
  the decoder that produces PCM from the steps of `src/decoder.rs`, the
  transform, filters, pulse search and soft clipping.

## Laws

What holds across functions stands as public proof functions named `law_*`, next
to the functions they speak of.

## Trust

One function is trusted: `string_from_bytes` in `src/ogg/tags.rs`, around
`String::from_utf8_lossy`.
