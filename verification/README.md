# radio_panel

Controller for a radio-effects box: audio is read from the sound card, run
through a simulated AM or FM radio channel, and played back; a front panel on
a serial port reports knob and wiper movements that retune the effect.

- `src/` is the verified library (Verus):
  - `front_panel_input` – the panel's line protocol: framing of received
    bytes into lines, decoding of `r<n>` / `w<n>` events, encoding of light
    commands, with its laws;
  - `text` – UTF-8 checking, trimming and `i32` parsing, done by the standard
    library and specified exactly;
  - `buffer` – the `bytes::BytesMut` buffer the protocol reads and writes;
  - `sound_loop` – the decisions of the audio loop (control messages,
    writing a frame out, starting the streams);
  - `effect`, `config` – the effect that does nothing, and the settings.
- `app/` is the program around it: the serial port and sound card, the
  floating-point effects built on liquid-dsp, and the configuration file.
