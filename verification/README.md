# embedded_camera_calibration

Calibration of a multi-projector rig from cameras that are embedded in the
calibration board.

`src/` is the verified library. It holds the decisions of the pipeline and
proves what they do:

- `wire`, `camera`: the protocol spoken with the embedded-camera servers;
- `schedule`, `calibrator`: when each frame is projected and sampled, what every
  projector shows, and what the cameras' reports add up to;
- `coordinate_spans`, `subpix`: the sweep of single scan lines that refines
  correspondences to subpixel accuracy;
- `external_camera`, `external_calibrator`: acquisition with an external camera;
- `content_projection`, `patterns`, `projection`: what is projected where;
- `camera_mesh`, `poses`, `alignment`, `calibration_evaluator`: the compensation
  mesh, and the evaluations;
- `debug_viz`: debug pictures and output paths;
- `float_bits`, `bits`, `grid`, `listing`, `text`, `types`: what these rest on.

Coordinates in floating point are carried by their encodings (`float_bits`);
arithmetic on them is left to the caller.

`app/` holds the programs around the library: sockets, windows, image
processing, files and the command line.
