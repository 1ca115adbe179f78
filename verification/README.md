# vid_tool

A card-game video streaming service: it scans dealing videos for green
placeholders, draws the dealt cards into them and streams the frames to
viewers over WebSocket, driven by requests of a game server on a Unix socket.

- `src/` is the verified library (Verus): placeholder tracking across frames
  (`scan`), card placement, overlay planning and frame pacing (`vid`), stable ordering by key
  (`ordering`), rectangle arithmetic (`geometry`), request handling, game
  stream stages, viewer connections, card announcements and video paths
  (`stream`), a name-keyed map (`registry`), string helpers (`text`) and the
  choice of files to scan (`preprocess`).
- `app/` is the program around it: OpenCV video work, sockets, threads, the
  async WebSocket server and the JSON forms of the messages.
