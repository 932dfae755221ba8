# PaperCast

PaperCast mirrors a Linux Wayland output to an e-ink tablet: it captures the
desktop, runs an e-paper pipeline (grayscale, tone, sharpening, scaling,
dithering) and serves the result over VNC or over its own pull-based wire
protocol to a native receiver.

## Layout

- `src/` — the library, verified with Verus. Each public function states its
  result in `ensures` over spec functions; the properties that relate several
  functions are public proof functions (`lemma_*`).
  - `frame`, `pixel` — frame types and pixel-format conversions
  - `tiles` — dirty-tile detection and rect coalescing
  - `dither`, `sharpen`, `scale`, `eink` — the e-ink pipeline
  - `overlay`, `test_pattern` — the latency counter and the synthetic source
  - `proto` — the native wire format (framing, zstd-compressed rects)
  - `recv` — the receiver framebuffer and its pull/handshake steps
  - `transport` — what each transport owes a client, and when
  - `mode`, `control`, `config`, `cli` — display modes, the control protocol,
    configuration defaults and command-line resolution
  - `probe`, `capture` — compositor capability reports and capture decisions
- `app/` — the program around the library: Wayland capture, sockets, threads,
  the VNC server, JNI bindings, the command line, and the floating-point tone
  curve.
- `tests/` — tests of the library, run against the real outside crates.

The calls into outside crates made by the library (`fast_image_resize`,
`zstd`, and a few `std` functions vstd does not specify) sit behind small
trusted wrappers whose doc comments say what is claimed of them.
