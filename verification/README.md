# git_patcher

Bookkeeping for a repository that keeps local patches on top of an
`upstream/` checkout: `push` replays the patches of `patches/series` as
commits on the checkout, `pop` turns the commits made since back into patch
files, and `source sync` records upstream plus the patches on a branch of the
root repository.

- `src/` is the library, verified with Verus: the series file format and
  where its entries point (`series`), the patch file format, its header and
  its names (`patch`), commit signatures and time zones (`signature`), the
  calls into `git2` (`git`), the saved state (`state`), the sync strategies
  and configuration (`sync_strategy`, `config`), the decisions of the
  commands (`patcher`) and the character helpers they share (`text`).
- `app/` is the command-line program: arguments, files, locks and the work
  on the repositories, done with `git2`.
- `tests/` runs the library on concrete values.
