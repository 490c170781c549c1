# TermKrush

A deterministic auto-mixer: put tracks on a sequence line, tap each track's
beat once, and the engine plans and renders one continuous mix. Same input,
same mix: the planner's decisions (seed, sections, transitions) are a proved
function of the input; the floating-point render that follows them in
`app/` uses no clock, randomness or global state, but is not itself proved.

## Layout

- `src/` is the verified library (Verus). Its functions carry contracts and
  are proved against them, except for a few thin wrappers around `toml`, the
  standard library's lowercasing and `String::from_iter`, whose contracts
  are trusted and say what those calls return:
  - `sequence`, `beats`, `project`: the project files (the track sequence and
    the tapped-beat cache), their text formats with save/load round trips, and
    how they follow renames, moves and deletes in the library;
  - `automix`, `repeats`: the planner's decisions (input hash seed, section
    lengths and start bars, transitions) and the proofs of the plan's shape
    and of fresh material on repeats;
  - `library`, `paths`, `config`, `text`: the library listing, path handling,
    configuration and the character-level text helpers;
  - `timeline`, `trim`, `scratch`, `navigation`, `deck`, `mix`, `wav`: the step
    grid, pad trims, scratch phrases, keyboard navigation, transport states,
    pad settings and the WAV header;
  - `arrangement`: the free-track arrangement's lanes of placed blocks;
  - `keys`: what each key press decides in the terminal interface (prompts,
    typing, menus, the clip editor and the main keys).
- `app/` is the command-line program around it: environment and files,
  decoding (symphonia, rubato), and the floating-point side of the mix
  (grid fitting, gains, the render).
- `tests/` exercises the library on concrete values.
