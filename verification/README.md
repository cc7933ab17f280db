# sandmp

A multiplayer falling-sand toy. The server keeps a 64 by 64 world of cells,
cut into 8 by 8 blocks; every frame it lets each grain of sand in a changed
block fall one row (straight down, or one column to a random side), and sends
the clients the textures of the blocks that changed. A client shows the world
in a window and asks for sand under the pointer while a mouse button is held.

- `src/` is the library, verified with Verus:
  - `particle`, `msg`: the cell contents and the messages.
  - `server::particles`: a block of cells with its texture.
  - `server::game`: the world of blocks, and the block written during a frame.
  - `server::simulation`: how one particle moves.
  - `server`: the frame (`step`) and the pieces it is made of.
  - `client`: the decisions of the client's loop.
- `app/` is the program: sockets, MessagePack encoding, the window, the loops.
- `tests/` runs the library on concrete worlds.
