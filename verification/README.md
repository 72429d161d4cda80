# onair-bot

Detects when the camera is in use and turns a SwitchBot device (an "on-air"
light) on and off accordingly.

- `src/` is the library, verified with Verus: debouncing of camera readings
  (`debounce`), selection and labelling of the processes that hold a
  `/dev/video*` device and the watcher built on it (`camera`), configuration
  parsing (`config`), SwitchBot request signing, request composition, reply
  checking and the retry policy (`switchbot`), and the character-level text
  handling they share (`text`).
- `app/` is the daemon around it: reading `/proc`, the environment and `.env`,
  HTTP, logging and the polling loop.
- `tests/` exercises the library.
