# rtxmw

Turning the installed game into placed geometry: reading its archives, decoding its textures, and
assembling its cells, bodies and weathers.

`src/` is the library, verified with Verus.

- `vfs` — archives and loose directories behind one case-insensitive index, and where the game is.
- `texture` — DDS and TGA files, their mip chains, their texels, and the grid a texture's painted
  lighting is sampled into.
- `scene` — models flattened to meshes, terrain, materials, cells, doors, skeletons and skins,
  particle emitters, and the weathers the settings describe.

Numbers the game stores as 32-bit floats are carried through the library as their bits, which it
compares, orders and rounds without computing with them. Reading the master file and the model format
is left to whoever implements `Records` in `app/game.rs`.

`app/` is ordinary Rust around it: files, threads, and everything that is floating point — transforms,
poses, the sun, the moons and the sky.
