# firefly

The logic of a visual-inertial odometry stack, verified with Verus.

- `src/` is the library. Every item carries a contract that Verus proves; no
  item is trusted.
- `tests/` runs the library on concrete values, with nalgebra and purecv for
  the arithmetic.
- `app/` is ordinary Rust around the library: floating-point arithmetic, files,
  configuration, and the plumbing between the steps of a frame.

## Modules

| Module | What it holds |
| --- | --- |
| `double`, `arith`, `algebra`, `matrix` | doubles by their bits, arithmetic that callers hand in, matrices |
| `sorting`, `table` | stable sorting, maps from keys to values |
| `vio` | multi-state constraint filter: state layout, estimates, covariance, features, Jacobians, the updates of window, landmarks and standstill |
| `vision_map`, `vision_match` | key frame maps and their files, poses found in them |
| `voxel_svio` | features chosen by the voxels in view |
| `void_types`, `void_esikf` | state, rotations and the iterated error-state filter |
| `void_map` | voxel map: octrees, planes, visual points, fixed maps |
| `void_measure` | measurement models on depth points and images |
| `void` | options, clouds and the frames of the odometry |

## Numbers

The library never adds or multiplies floating-point numbers itself. A function
that needs arithmetic takes it as closures, such as `plus` and `times`, and its
contract names each operation and its order. Comparisons, signs and roundings
to integers are the library's own and follow IEEE 754.
