# BlueRush

A flood simulation game: water rushes in, spreads by pressure diffusion and
carries objects of different weights along.

- `src/` is the verified core, written in Verus: the voxel grids, the
  editor's brush and undo history, level loading, the flow-distance search,
  the discrete half of the object physics (one random winner per
  destination, moves applied highest slot first, optional collision
  destruction), face culling for the voxel meshes and the checks on saved
  grids. Every public function carries a contract; the laws that relate
  several of them (undo restores, redo after undo, a dab stays in its square
  and never touches terrain, fixtures never move, objects are conserved
  and never sink) are proof functions.
- `app/` is the game around it: Bevy systems, file dialogs and JSON, the
  camera, textures, and the floating-point water and pressure physics.
- `tests/` exercises the library on concrete grids.
