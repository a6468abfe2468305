# syncbox

The verified core of a desktop client for SSH storage boxes.

- `src/` is the library, written in Verus: text handling (`text`), stable
  sorting (`order`), reading `quota` and `df` output (`quota`), remote
  listings and `du` sizes (`listing`), saved connection settings (`config`),
  upload jobs (`jobs`), the application state (`state`), the steps of an
  upload run (`upload`) and the clock (`clock`).
- `app/` is the Tauri program around it: commands, SSH sessions, local
  files, JSON storage and upload threads.
- `tests/` exercises the library on concrete inputs.
