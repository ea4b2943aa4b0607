# clipx

A clipboard that several devices share: text, images, files and directories that
are copied on one device appear on the clipboard of the others.

`src/` is the library: the rules, formats and state of the program, written in Rust
and proved with Verus.

| Module | What it holds |
| --- | --- |
| `text`, `units`, `endian`, `digest` | texts, sizes, byte order and digests |
| `paths` | portable names, safe relative paths, and the keys under which paths collide |
| `wire`, `fingerprint` | messages, limits, and what content is known by |
| `manifest`, `progress`, `receive` | what a file transfer may announce, and what has come in of it |
| `order`, `capture`, `send` | what is captured of copied files, and how it is sent |
| `walk` | that a capture holds all that was copied, and that received files are known again |
| `image` | PNG images and their transfer in chunks |
| `sessions`, `seen`, `state` | transfers under way, messages dealt with, and the session as a whole |
| `delivery` | that what one device sends, another takes |
| `transport` | frames, handshakes, retries and the connected devices |
| `clipboard` | what is read from the clipboard, and how it is sent |
| `cli`, `config`, `panel`, `tray` | the command line, the configuration and the desktop pages |
| `direct` | the direct mode, which has no handshake and its own messages |

`tests/` runs the library. `app/` is the program around it: the system clipboard,
the network, the disk, the tray and the windows. Started under the name `clipx-gui`
it runs on the desktop, under `clipx-direct` in the direct mode.

Times are nanoseconds since the session began. Fingerprints of texts and manifests
are those of the standard library's default hasher on a 64-bit machine.
