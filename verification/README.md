# dl_labs

A set of small deep-learning labs on synthetic images: classification,
multi-label tagging, detection, segmentation, keypoints, faces, generative
models, restoration, an image-text model and an ONNX round trip.

- `src/` is the verified library: the deterministic generators, the shape
  and scene layouts every training set is drawn from, the label and mask
  builders, region growing, grid targets, non-maximum suppression over
  precomputed overlaps, scene-wise splits, and the counting behind every
  metric. Each public function states its result exactly over spec
  functions; the `law_*` proof functions state properties that relate
  several calls or hold of every input.
- `app/` is the program around it (`dl_labs_app <lab>`): training with
  candle, floating-point rendering and filtering, image files, nalgebra's
  SVD and the ONNX lab with prost and tract.
- `tests/` runs the library on concrete inputs, mostly against
  straightforward re-statements of the samplers.
