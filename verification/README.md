# vo-box-lite

Visual localization for a small camera board: feature extraction, matching and pose recovery, with
every function of the library verified by Verus against its contract.

Each frame runs through a seven-level pyramid (6:5 downscales) of FAST-12 corners, a 5x5 box blur and
rotated BRIEF descriptors. The descriptors are matched against the points of a map frame (mutual nearest
neighbours with a ratio test), and the matches are posed by RANSAC over a linear solution.

## Layout

- `src/` is the library.
  - `binary32`, `sqrt`: single-precision arithmetic over integers, bit for bit as IEEE 754 rounds it.
    All real numbers of the library are `Binary32` values.
  - `blur`, `downscale`, `fast`, `rbrief`, `pyramid`: feature extraction.
  - `matcher`, `linalg`, `pose`, `ransac`, `localize`: from features to a camera pose.
  - `protocol`, `reader`, `semantic`, `csv`: records, commands and text.
  - `camera`: settings of the camera driver.
  - `grid`, `store`, `words`: row-major indices, bounded stores, little-endian words.
- `tests/` runs the library, with the machine's floats as the yardstick.
- `app/` holds the device firmware and the host's feature extractor.
