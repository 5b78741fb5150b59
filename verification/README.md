# riddle

An enchanted diary for the reMarkable tablet: you write with the pen, and the
memory of Tom Riddle reads the page and answers in ink.

This crate holds the diary's logic as a Verus library, every function proved
against its contract:

- `parser` — the streamed reply: the `⟦show:N⟧` directive, sentence-sized
  ink, and the `⁂` transcription postscript.
- `oracle`, `json` — the chat request, the pi prompt line, and the reading of
  SSE deltas, pi event lines and HTTP errors.
- `memory`, `strokes`, `calendar` — the remembered pages: the index file,
  pruning to the newest 400, the catalog, the stroke files, spoken dates.
- `qtfb`, `pen`, `touch`, `display` — the device wire formats and the
  requests each panel operation makes.
- `diary` — footprints beside live ink, the layout of a reply on the page,
  and the writing animation.
- `page` — the page's cycle: listening, drinking the ink, thinking,
  replying, lingering, fading, and the guide.
- `text`, `num` — characters, whitespace, decimal and hexadecimal numerals.

`app/` is the program around it: environment, files, sockets, the HTTP
client, the pi process and the input devices.
