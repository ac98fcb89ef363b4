# azookey

A Japanese input-method engine whose logic is verified with Verus.

`src/` is the verified library:

- `text`, `csv`, `sort`, `typo`: character-level helpers, dictionary CSV
  fields and whole numbers, a stable sort by rank, the one-edit test.
- `romaji`: romaji-to-hiragana composition through a conversion table
  (standard, AZIK, custom).
- `candidate`, `wordmap`, `dictionary`, `user_dictionary`, `learning`,
  `dynamic`: conversion candidates and the sources they come from.
- `config`, `engine`, `converter`: the conversion session, and the requests
  it makes of the outside conversion command and the language model.
- `settings`, `window`, `indicator`, `server`, `user_entries`: the user's
  settings, the candidate window, the input-mode indicator, the conversion
  service and the user dictionary editor.

`app/` holds what touches the file system, processes, the window system and
JSON (de)serialisation, and calls the library for every decision.

`tests/` runs the library on concrete inputs.
