# shadowplay

The clip-cutting core of ShadowPlay, a shadowing player for language
learners: a YouTube link goes in, short sentence-shaped clips with their
time spans come out.

`src/` is the library, verified with Verus:

- `video` — the 11-character video id of a YouTube link.
- `transcript` — the recogniser's tokens merged into timed words.
- `harvester` — sentence clips cut from punctuated segments.
- `chunker`, `prompts`, `openai` — the language-model chunker: windows,
  requests, repair of the answered ranges, and the chunks built from them.
- `bounds` — the split, merge and stop-word passes every clip list goes
  through.
- `settings`, `cache`, `tools` — the decisions of a run: options, the
  transcript cache and library list, the helper programs' command lines.
- `text`, `sentence`, `wordlists`, `wordspan`, `model`, `error` — the text
  model and the shared types.

`app/` runs it all: helper programs, HTTP requests, files, serialization.
`tests/` exercises the library on concrete inputs.
