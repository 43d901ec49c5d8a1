# web_modules

The logic of a buildless web frontend toolchain, written in Verus: which npm packages a
project vendors and where they go, how an import map is composed and checked, what a build
emits and in which order, and what it refuses.

Every function of the library carries a contract, and Verus proves it of every one but the few
that call other crates: those are believed (see below). Contracts speak of mathematical values (`Seq<char>` for text, `Seq<Part>` for a path's components, `Map` for an
import map); each type's `View` says which.

## Layout

- `src/text.rs`, `src/path.rs`, `src/glob.rs`, `src/sorted_map.rs`, `src/json.rs`: text,
  paths, patterns, ordered maps and JSON documents, as the rest of the library uses them.
- `src/importmap.rs`, `src/mount.rs`, `src/tsconfig.rs`, `src/tsconfig_read.rs`: import maps,
  the mounts they are generated from, and the `tsconfig.json` that belongs to them.
- `src/module_graph.rs`, `src/static_files.rs`, `src/reject.rs`, `src/symlinks.rs`,
  `src/walk.rs`, `src/npm_link.rs`: what modules import, and which files take part in a build.
- `src/vendor/`: package specs, manifests, archives, what is kept of them, and source
  dependencies that are compiled in place.
- `src/build/`: the staged build. `preflight` and `admission` decide what may be written, `run`
  in which order, `swap` how the output is replaced, `bundle`, `optimize` and `compress`
  what happens to the emitted tree, and `templates`, `hazards` and `tags` how a
  page is rendered, and which template is not.
- `src/config.rs`, `src/env.rs`: the settings of the program.
- `app/`: the `web-modules` program, ordinary Rust that does the reading, writing and
  downloading that the library decides on.
- `tests/`: tests on concrete values.

Where the work is a back and forth with the filesystem or the network, the library holds a
step machine (`build::swap::Swap`, `vendor::fetch::Step`, `npm_link::Mounting`,
`npm_link::Serving`, `vendor::program::Program`): it names what to do, the program does it and
answers, and the library says what follows.

Proof functions whose names start with `law_` state what holds across functions: that a failed
build leaves the previous output alone, that no source writes over a generated file, that a
vendored archive stays below its directory, and so on.

## What is taken on trust

A few functions call other crates and are believed to do what their contracts say: JSON through
`serde_json` and `jsonc-parser` (`src/json.rs`), JavaScript through `oxc`
(`src/module_graph.rs`), manifests and archive addresses through `npm-utils` (`src/npm.rs`),
templates through `tera` (`src/build/templates.rs`) and gzip through `flate2`
(`src/build/compress.rs`). Each of them says in its doc comment what is claimed.
