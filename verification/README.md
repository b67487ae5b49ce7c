# thread_rollout

A thread of conversation is recorded as a rollout: a list of items, among them
the messages of the user and the model, compactions of the history and
rollbacks. Threads are forked from one another. This library joins their
histories:

- `thread_merge` brings what the descendants of a thread have said back into
  it. Of each are added the items from the first turn on that the merged
  history, as it is played back by then, does not begin with; or from the first
  rollback on that takes back turns in common, if that comes first. So turns in
  common are not repeated, unless a compaction has replaced them. A rollback
  that takes back the descendant's own turns alone is left out where no own turn
  before it stays. A thread is merged before those forked from it.
- `thread_combine` puts the whole histories of other threads behind that of a
  thread, each behind a mark, and records where they come from.
- `thread_workspace` tells where a thread worked, and whether two threads work
  in one place.

`turns` plays a rollout back to the turns that are in effect, and `lineage`
follows a thread to the ones it was forked from.

The library reads no file. A function that needs something from outside finds
it in the `answers` it is given, or returns the first request that they leave
open. `app/` performs the requests and calls again. Every function in `src/` is
proved by Verus against its contract; the modules whose names end in `_laws`
state and prove what holds of the library as a whole.
