# morse

The logic of a Morse code trainer, verified with Verus.

- `src/backend/text_generator.rs`: random practice texts in groups of
  characters. Its contract states when it fails, that the text is made of
  words of the asked length, that it uses only the given characters, that no
  character follows two equal ones, that every character occurs when the
  text is long enough and none repeats when it is short, and which pool each
  character is drawn from; with a seed, the text is the one that seed gives.
- `src/backend/char_source.rs`: the random source, `rand`'s `StdRng`, with
  the seed and the draws made recorded for the proofs.
- `src/widgets/window.rs`: what the main window shows and plays: the timer
  text, punctuation kept next to its neighbours, the clipboard text, the text
  played with its start and end additions, the characters that may be played
  and where each stands, the offered characters and their grid.
- `src/widgets/alphabet_dialog.rs`: the sections and the grid of the alphabet
  dialog, and what a click on a character does.
- `src/backend/mod.rs`, `src/constants.rs`: the settings' choices and the
  alphabets.
- `app/`: the GTK program around the library: windows, settings storage,
  audio playback through `morse_player`, and the floating point parts
  (durations, volume).
