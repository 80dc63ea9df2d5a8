# sabpak

A small package manager: recipes (TOML) say where a program's sources live and how
to build it; `build` compiles a recipe and publishes the binary as a GitHub release,
`install` downloads and installs published binaries with their dependencies, and
`update`, `check`, `remove`, `list`, `new` and `import` manage what is installed and
the recipes.

Layout:

- `src/` is the library, verified with Verus: version comparison (`ver`), the
  installed-packages record (`config`), dependency resolution as a step-by-step
  depth-first walk (`resolve`), recipe naming and binary selection (`recipe`), the
  CRUX `Pkgfile` reader (`import`), release selection and the `update`/`check`
  decisions (`update`), recipe creation from a GitHub project (`helper`), the build
  plan (`builder`), download URLs and the install run over resolved packages (`install`), and the character-level text model
  they share (`text`).
- `app/` is the command-line program: it reads the environment and the files, runs
  `git`, `tar`, `gh` and the build tools, talks to GitHub over HTTP, and hands plain
  values to the library.
- `tests/` runs the library on concrete inputs.
