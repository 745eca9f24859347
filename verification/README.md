# harvest

Picks file paths out of terminal scrollback: it reads lines of terminal output and lists the paths
in them that exist, the latest first, as they are to be written in the present directory. The
library is verified with Verus; a thin program around it reads standard input and prints the result.

## What is found

- Absolute paths: tokens that start with `/`, also behind a `:` or `=`. Escaped spaces belong to the
  token; for listings that do not escape them, up to twenty words are joined.
- Relative paths: tokens with a `/` that do not start with it.
- Bare file names such as `main.rs`, if prompts are tracked.
- Marks behind a path (`,`, `;`, `.`, `:`) and line numbers (`:42`) are cut off.

With `--prompt`, the format string of the shell's prompt, the lines of the prompt are recognised by
the text that the format draws for certain. Each of the last twenty prompts opens a section. The
directory of a section comes from the log of commands (`--cwd-log`) or else from undoing the `cd`
commands on later prompt lines; where the command speaks of other directories, the one in which most
of the section's relative paths exist is taken.

## Layout

| Path | Content |
|---|---|
| `src/text.rs` | character classes, trimming, splitting, searching |
| `src/path.rs` | paths as lists of components: joining, normal form, relative form |
| `src/fs.rs` | the disk: the `Filesystem` trait and a disk in memory |
| `src/parse.rs` | tokens and candidates in a line |
| `src/prompt.rs` | prompt formats and prompt lines |
| `src/vars.rs` | variables of the environment |
| `src/cd.rs` | following and undoing `cd`, directories in a command, the vote |
| `src/pipeline.rs` | sections, directories and the result |
| `src/cli.rs` | options, number of lines, log of commands |
| `app/` | the program: arguments, environment, standard input, disk, debug log |
| `tests/` | tests |

Each module states what its functions return with spec functions over sequences of characters, and
ends with laws: proof functions named `law_..` that hold of the module as a whole. The contracts of
functions that ask the disk speak of `Filesystem::disk`, the state of the disk during a run.

## Options

`--cwd DIR`, `--prompt FORMAT`, `--cwd-log FILE`, `--lines N`, `--debug` (or `HARVEST_DEBUG` in the
environment), which appends to `/tmp/harvest_debug.txt`.
