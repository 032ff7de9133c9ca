# search_criteria

Ranking criteria of a full-text search engine, written and proved in Verus.

A search collects, for every document, the raw matches between the words of the
query and the words of the document. A criterion prepares what it reads of the
documents, and decides which of two documents comes first.

| Module | What it holds |
|--------|---------------|
| `types` | the records: raw and simple matches, documents, words of the query |
| `postings` | where postings lists are kept: a plain table, or an arena of `compact_arena` |
| `query_enhancer` | which words of the typed query a word of the enhanced query stands for |
| `grouping` | runs of records that share a key, cut by `slice_group_by` |
| `sorting` | sorting by keys, and increasing lists of matches, made by `sdset` |
| `distances` | the distance of each word of the query |
| `phrase` | which matches of a phrase stay |
| `padding` | padding of matches whose word stands for several words |
| `rewrite` | both together: `multiword_rewrite_matches`, `prepare_raw_matches` |
| `rewrite_laws` | what holds of rewriting as a whole |
| `criterion` | what a criterion is, and that documents can be sorted by one |
| `criteria` | typo, words, proximity, attribute, words position, exact, stable document id |

The score of the typo criterion is computed in floating point, in `app/`.
