# voxcircuit

Pieces of a voxel-based digital circuit simulator, as a library whose
behaviour is stated in contracts and proved:

- `importer::base`: little-endian integer, string and vector readers on byte buffers.
- `importer::xraw`: the header of xraw voxel files and the loading of index and
  voxel matrices (channel conversions of 8, 16 and 32 bits go through `num::NumCast`).
- `schematic::schema`: schemas of wires, elements and models, and their validation.
- `circuit::mux`: the tick of multiplexers and demultiplexers over the wires'
  previous and next values, with laws on the order of components and on repetition.

`app/` holds what touches files, bincode and the Bevy ECS.
