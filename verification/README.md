# keysnoise

Keyboard noises: every key press and release, and every mouse click, plays
a sound.

`src/` is the verified library (Verus):

- `input` — which `/dev/input` event nodes are keyboards and mice (from the
  text of `/proc/bus/input/devices`), when a set of opened devices is enough
  to run, and how raw `struct input_event` records become key events.
- `sound_name` — the names of the sound files, `<hexcode>-<0|1>.wav`.
- `audio` — the sound bank, which clip a key event plays (mute, mouse-click
  and fallback settings), and stereo frames from interleaved samples.
- `mute` — the mute hotkey: Scroll Lock twice within two seconds.
- `engine` — key events and the settings.
- `text` — character-level helpers (Unicode white space, words, lines).

`app/` is the program around it: the GTK window, reading the sound folder
and WAV files, opening and polling the input devices, the audio thread and
the floating-point mixing.

Setup: copy a folder of key sounds into `assets/wav`, add yourself to the
`input` group (`sudo usermod -aG input $USER`), log in again, and run.
