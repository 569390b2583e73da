# watermarking

Hides an image inside another one, in the parity of the red, green and blue
channels of its pixels, and reads it back.

- `src/outils.rs`: a byte and its eight binary digits, and the channel whose
  parity carries one digit.
- `src/image.rs`: `PixelBuffer`, the bytes of an image with their layout
  (channels, width, height, row stride), and its model `Image`.
- `src/algo.rs`: `encoder` and `decoder`, what they read and write, and
  `peut_encoder` / `peut_decoder`, which say on which images they run to
  their end.
- `src/lois.rs`: the laws: what the encoder keeps of the hidden image, that
  the decoder reads it back, that no channel of the host moves by more than
  one.
- `src/choix.rs`: the small decisions of the user interface (the format of a
  saved image, what to do when no file was chosen, when to warn that the
  hidden image is too large).
- `app/`: the GTK 4 window, the file dialogs, and the conversions between
  `gdk_pixbuf::Pixbuf` and `PixelBuffer`.
