# huebeat

Audio-reactive lighting for Philips Hue: sound comes in, beats, tempo and genre are found in it, and
colours go out to the lights of an entertainment area fifty times a second.

`src/` is a Verus library. It holds the analysis, the classifier, the effects, the conductor, the
messages and what the commands decide, and each function states in its contract what it returns or
changes. `app/` is the desktop application around it: audio capture, the Fourier transform and other
functions of the floating-point unit, requests to the bridge, the encrypted stream, OSC over UDP,
threads and timers, files and windows.

## Layout of the library

| Module | Subject |
| --- | --- |
| `rounding`, `single`, `double`, `order`, `sums`, `bounds` | binary floating point on integers, bit for bit, and what holds of it |
| `core_types`, `core_laws` | bands, beats, frames, tempo, genres, colours, palettes |
| `analysis`, `analysis_laws`, `display_laws`, `stream_laws` | beats per band, levels and spectrum of a stream of samples |
| `tempo`, `tempo_laws` | the tempo of an onset envelope |
| `genre_rules`, `genre`, `genre_laws`, `ranking_laws` | the rules that score genres, and the classifier with its hysteresis |
| `effects`, `effect_laws`, `light_laws`, `route_laws` | beats to light frames: routing by height, chases, flashes, panic modes |
| `palette` | built-in palettes, the palette store and its file |
| `engine`, `engine_laws` | features, the conductor, the light loop, opening a stream |
| `hue_client`, `hue_stream`, `json`, `diag` | the bridge: replies, packets, diagnosis |
| `osc_io`, `audio_capture`, `pattern` | OSC messages, audio devices and samples, test patterns |
| `commands`, `config`, `text` | what commands decide, settings, texts |

Numbers such as brightness or flux are `Single` and `Double` values: the bit patterns of IEEE 754
numbers with verified arithmetic on them, so that a contract can say exactly which number comes out.
Functions that the machine computes (cosines, powers, exponentials, the transform, random draws) are
handed in as arguments.

The files that end in `_laws`, and some `lemma_` functions beside the code, state what holds across
functions: that a store comes back from its file, that six leads in a row are needed to switch the
genre, that a stream may be cut into any pieces, that every band reaches a light, and more.

Two functions are trusted: `osc_io::osc_string` and `osc_io::encode_texts` wrap
`rosc::encoder::encode_string` and `rosc::encoder::encode`.
