# maroontre

The core of a still-picture AV2 encoder, written and verified in Verus.

`src/` is the library. Every function there states in its contract what it
returns:

- bitstream: `bits`, `headers`, `layout`, `frame`, `tiling`
- entropy coding: `entropy`, `syntax`, `palette`
- geometry and samples: `plane`, `partition`, `schedule`, `num`
- prediction: `dcpred`, `intrapred`, `leaf`, `mhccp`, `csc`
- transforms and quantization: `fdct`, `itx422`, `proj`, `quant`
- coding decisions: `contexts`, `core444`, `chroma444`, `lossless`,
  `lossless444`, `lossless_rd`, `modesearch`, `partsearch`, `replay`
- distances and rates: `metrics`, `distortion`, `estimates`, `splitcost`
- requests: `encoder`, `simple`

Proof functions whose names begin with `law_` state what holds of several
functions together, such as that a decoder reads back every value that was coded.

`app/` holds what runs around the library: threads, floating-point costs and
searches, and what answers the coding loop of a 4:4:4 tile.
`tests/` runs the library on concrete values.
