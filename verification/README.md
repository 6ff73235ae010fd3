# embedding_models

Input preparation and image splicing for multimodal embedding models, verified with Verus.

A request comes in as token streams with images. The library brings the images under a size cap,
puts placeholder tokens for them at the head of each stream, lays the streams out as one padded
batch, and later puts the rows that the vision tower gives in the place of the placeholders. The
contracts state the batch, the masks and the spliced embeddings element by element.

- `tensor` and `shape`: tensors as shapes and row-major elements, and the candle calls with what is
  taken for granted of each.
- `single` and `resize`: the size cap, with single-precision scaling on exact integers.
- `preparation`: the order in which images are preprocessed.
- `prompt`, `vision_meta`, `processor`: from sequences to model inputs.
- `positions`, `splice`, `model`: from model inputs to what the text block is given.
- `laws`: what holds across these steps.

Functions whose sizes have to fit in memory have a counterpart named `.._checked`, which tests that
first. `app/` plugs in the image preprocessing, the text block and the vision tower.
