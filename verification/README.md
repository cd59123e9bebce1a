# icer

A progressive wavelet image codec: images and hyperspectral cubes become
streams of segments that can be cut anywhere between packets and still decode.
The library in `src/` is verified with Verus, without trusted items; `app/`
holds what is floating point or plugs the codec into a media framework.

| modules | what they hold |
|---|---|
| `wavelet_int`, `wavelet3d`, `subband3d` | integer wavelet transforms and their subbands |
| `context`, `context3d`, `scan`, `bitplane`, `bitplane3d` | context models and bit-plane coding |
| `arith`, `ixec`, `bin_codes`, `interleave`, `entropy` | the two entropy coders |
| `priority`, `grouping`, `partition`, `merge`, `parts` | order of importance, and segments of a transform |
| `header`, `plane_container`, `cube_wire`, `bytes` | framing |
| `strip`, `compress`, `rd`, `emit`, `encoder`, `quality` | encoding under budgets and quality targets |
| `decoder`, `assemble`, `cube`, `cube_means`, `cube_decode` | decoding, strict and lenient |
| `analyze`, `similarity` | statistics and distortion |
| `registry` | frames and packets |
| `readback*`, `roundtrip*`, `sizes`, `containment`, `budget`, `ample`, `targets`, `precision`, `ranks`, `windows`, `choosing`, `ordering`, `shuffle`, `cube_quota`, `cube_order` | what holds of whole streams |
