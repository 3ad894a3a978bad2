# seed_intelligence

A Hebbian knowledge graph that grows from text: concepts are nodes with an
energy, relations are weighted undirected edges that strengthen when words
occur close together, and questions are answered by walking the graph.

The library under `src/` is written in Verus and its contracts are proved:

- `text`, `table`, `sort`, `filter`: strings as character sequences, an
  insertion-ordered table keyed by strings, a stable descending sort.
- `brain`: the graph (concepts, relations, books) and its operations, over
  the model `BrainView`; `brain_laws` proves what holds across operations.
- `nlp`: Jieba segmentation and stop words behind trusted wrappers, and the
  token normalisation around them; `nlp_laws`.
- `learner`: sliding-window Hebbian learning, cleanup, statistics and
  traversal; `learner_laws`.
- `inference`, `response_generator`: keyword matching, breadth-first paths,
  best paths, and the answers built from them; `inference_laws`.
- `lm`: the character vocabulary and configuration of the language model;
  `lm_laws`.
- `observer`, `repl`, `file_reader`, `crawler`: what observation mode, the
  prompt, file learning and web search decide, given plain values;
  `crawler_laws` proves that URL encoding decodes back to the text's bytes.

Weights and energies are fixed-point numbers: `brain::UNIT` (1 000 000)
stands for 1.0.

`app/` is the command-line program around the library: argument parsing,
files and external converters, HTTP requests, the clipboard and file
watchers, JSON storage of the graph, and the candle language model.
