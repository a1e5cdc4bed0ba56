# nspr

GitHub-native stacked pull requests, without force-pushes.

The stack is the linear run of commits between the trunk and `HEAD`. Each commit
becomes one pull request, based on the pull request of the layer below it.
Updating a pull request appends a commit rather than rewriting its branch.

## Layout

- `src/` is the library, verified with Verus: how commit messages and settings
  are read, which layers of a stack are pushed, what is asked of git and of the
  forge and in which order, and what the user is shown.
- `app/` is the command line around it: git, the GitHub API, the SSH agent and
  the terminal.
- `tests/` runs the library, in part against real repositories and a forge that
  lives in memory.

## Workflows

A command is a function over a tape of replies (`src/tape.rs`). It puts one
request after the other and reads the replies that are already there; where one
is missing, it waits. The command line carries the last request out, adds the
reply, and runs the workflow again. So a workflow is a function of what the
outside said, and its contract says exactly which requests it makes and what it
comes to. The proof functions named `law_..` state what holds across workflows.
