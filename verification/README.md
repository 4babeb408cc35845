# fpv-viewer

A desktop viewer for analog FPV drone video: it sweeps the band with a
software-defined radio, settles on a signal, and shows its picture with a panel of
what the sweep sees.

The library under `src/` holds the viewer's decisions and drawing and is verified with
Verus. Every function states in its contract what it returns; the `law_` functions
state what holds across functions.

| Module | What it holds |
| :--- | :--- |
| `bands`, `plan`, `rates` | the channel table, tune planning, capture rates and sweep budgets |
| `scan`, `session`, `reader` | what a sweep, a session and a sample stream do next |
| `band_scan`, `axis`, `panel`, `scan_window` | the band panel: its model, its frequency axis, its drawing |
| `viewer`, `input` | the picture window: keys, texts, composing the picture |
| `decode_worker`, `sigmf` | bookkeeping of decoding, and recordings |
| `raster`, `glyphs`, `paint`, `text` | pixels, font, display lists, numbers as text |
| `float`, `order`, `clock` | single and double precision in integers, sorting, the clock |

Frequencies are whole hertz in the channel table and millihertz elsewhere; levels are
millionths of a decibel. The ages a panel shows are nanoseconds, other waits microseconds.
Columns, levels, ages and colours are rounded as single or double precision rounds them.

`app/` is the program around it: command line, files, radios, windows, threads and the
signal processing of `orecchiette-fpv-drone-analog-rs`, which is floating point.
