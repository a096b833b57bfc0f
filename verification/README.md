# basemind

A code map, search and shared memory for a repository, made for agents that work in it. The library
under `src/` holds the rules; `app/` is the program around it.

## The library

Every function of `src/` is proved against its contract. The modules, by subject:

- **Foundations**: `text`, `seek`, `sort`, `seqs`, `numbers`, `keys`, `keyspace`, `tables`, `cursor`,
  `budget`, `digest`, `model`.
- **References and call graphs**: `calls`, `stored_calls`, `resolution`, `callers`, `find`, `graph`,
  `walk`, `impls`, `cache`.
- **Languages and queries**: `lang`, `tags`, `tag_sections`, `syntax`, `history`, `normal`, `outlines`,
  `audit`.
- **Binding names**: `js`, `resolve`, `stitch`, `restitch`, `stackgraph`, `navigate`.
- **Search**: `pattern`, `grep`, `code`, `documents`, `tools`.
- **Memory and proposals**: `memory`, `governance`, `cochange`, `proposals`, `proposal_ops`,
  `memory_tools`, `remining`.
- **The server and what it speaks to**: `server`, `lean`, `lenient`, `notify`, `identity`, `savings`,
  `web`, `shells`, `comms`, `git`, `cli`.

Functions whose names begin with `law_` state what holds across calls: that pages chain, that keys
read back, that what is put is got, that a rejected proposal stays rejected.

Calls into other crates stand behind small functions whose contracts are trusted; each says in its
comment which outside function it calls and what is claimed of it.

## The program

`basemind scan` indexes a view of the repository, `basemind query` searches and navigates it,
`basemind memory` and `basemind governance` work on the stored records, and `basemind serve` offers
the same as tools over standard input and output. Grammars are fetched by `basemind lang install`.
