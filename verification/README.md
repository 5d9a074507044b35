# registry

The core of a registry of named contexts: which ones there are, what is in
memory, what is durable, who is a member of which group, and what a search
over stored passages answers. Every decision is a state transition of
`AppState` with a contract that Verus proves.

Nothing in `src/` reads a file, a clock or a lock. An operation that needs the
outside world is split where it does: one function says what is to be done,
the caller does it, and the next function takes the outcome. What has to be
carried across is a ticket, which names the registration it is for, so that an
outcome that comes too late for a deleted or renamed context changes nothing.
No serial and no cache identity is given out twice, as long as their
sixty-four bit counters last: every operation is proved to keep that.

- `names`, `text`, `ranking`, `paths`, `terms`: names in order, strings,
  rankings, file names, search terms.
- `state`: the registry's data and the invariant that all of it keeps.
- `lifecycle`, `family`, `meta_ops`: creating, deleting and renaming contexts,
  their files, their meta and their schema.
- `write_path`, `engine`, `residency`: logged writes, flushing, evicting.
- `groups`, `group_ops`, `group_restore`, `reconcile`: membership and nesting.
- `passages`, `index`, `fusion`, `search`, `explain`: stored passages and the
  two search lanes.
- `retrieval_cache`, `semantic_cache`, `query_guard`, `retrieval`: cached
  answers, and when one question may be answered with another's.
- `quotas`, `gauges`, `replication`: ceilings, gauges, replicas.

Floors, cosines and scores are held as ranks: integers in the order of the
floats they stand for. `app/` converts, sums what has to be summed as floats,
and does the file I/O.
