# ryu-subtitles

Subtitles for a video on this machine: its audio is transcribed, the transcript is translated
into the language that was asked for, and a timed `.srt` or `.vtt` file is written beside it.

The library under `src/` holds everything that is decided, and Verus proves it against the
contracts of its functions:

| module | what it holds |
| --- | --- |
| `cues` | from the segments of an engine to subtitle cues; the SubRip and WebVTT writers |
| `media` | windows of 16 kHz audio, cut where it is quiet; the WAV files that hold them |
| `stt` | which speech engine is asked, what it is sent, and what its answer means |
| `parakeet` | what the engine in the process is fed |
| `translate` | numbered requests to a model, and replies matched by number |
| `engine` | a run of one job, from event to event |
| `store` | jobs, their cues, and the settings |
| `library` | the picker, and the check that every source path passes |
| `languages` | the closed table of target languages |
| `api` | what the requests of the companion come to |
| `auth` | the bearer in front of all of it |
| `paths`, `order` | the parts of a path; keeping things sorted |
| `json`, `double`, `text` | JSON text, floating point numbers as bits, and characters |

Public proof functions state what holds of several functions together; their names are
sentences.

`app/` is the process around the library: the disk, the database, sockets, decoders and the
environment. `tests/` runs the library on concrete values.
