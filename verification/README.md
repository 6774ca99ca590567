# bulbbeat

Plays an audio file on the default output device and drives every Kasa bulb on the network in
sync with it: the color follows the spectrum, beats land as short flashes.

The crate has two parts.

- `src/` is a Verus library: the rules that turn what is heard into a light plan, that queue and
  resample the audio, that time the commands of each bulb, and that answer the requests of the web
  daemon. Every function states what it returns in a contract, and Verus proves the contracts and
  the laws that follow from them.
- `app/` is ordinary Rust around it: the command line, files and codecs, the audio device, the
  bulbs, the HTTP sockets, and the floating-point signal processing.

## Where to look

| Module | What it decides |
|---|---|
| `survey`, `onset` | what is typical of a track, how each second compares to it, and the transients |
| `analyze`, `plan` | the hue, saturation and brightness of each second, which onsets flash, and the light plan |
| `audio`, `output` | the stereo track at the rate of the device, and what each callback plays |
| `scheduler` | when each bulb is sent which command, and when it is restored |
| `playback` | which bulbs are driven, when a playback starts, and when it is over |
| `http`, `web`, `json` | requests, routes and answers of the web daemon |
| `order`, `text` | stable sorting, decimal numbers, white space |

Calls into `serde_json` and a few functions of the standard library are trusted; the functions
that make them are marked `external_body`, and their comments say what is taken for granted.

## Usage

```
bulbbeat discover [--timeout-secs <3>]
bulbbeat play <AUDIO> [--bulb <IP>]... [--email <E>] [--password <P>]
              [--dry-run] [--no-restore] [--lead-ms <N>]
bulbbeat --web [--port <8080>]
```

The web daemon serves a page on its port, and

```
GET  /api/files   audio files in the working directory
GET  /api/status  playback state (elapsed, duration, underruns)
POST /api/play    {"file": "song.mp3"}
POST /api/stop    stop playback and restore bulbs
```
