# wherego

A platform for a group of people to negotiate a shared travel destination.
Participants score destinations; a negotiation combines the scores of the
checked participants with a Borda count and lists the destinations from the
most preferred to the least.

- `src/` is the verified library: the records (`model`), the stable
  argsort (`argsort`), the Borda-count negotiation (`negotiate`), score
  lookup and recording (`scores`), drag-and-drop reordering (`dragrank`),
  text order and endpoint addresses (`text`), and the client's state and the
  changes the user makes to it (`store`).
- `app/` is the server (warp and PostgreSQL) and the browser client (yew and
  yewdux) around it; built for wasm32 it is the client, elsewhere the server.
  The server takes `--reinitialize-database` to recreate its tables and
  `--listen-ip` to choose the address it listens on.
