# jamcounter

Counts the votes of a GMC Jam voting thread. A language model reads every
voting post and lists the games it ranks; names that stand for the same game
are grouped into clusters; the clusters are scored by ranked choice.

- `src/` is the verified library (Verus): the prompts and the clean-up of the
  model's answers, tokenisation and token containment of names, the cluster
  set and the greedy clustering, the ranked-choice tallies, the "Best Of"
  winners, and the reading of the thread's posts.
- `app/` is the program around it: configuration, HTTP, the model's chat API,
  JSON, and the floating-point scores, which the library supplies with exact
  counts and compares by rank.
- `tests/` exercises the library.

Run with OpenAI by setting `JAM_OPENAI_API_KEY`; for a local model set
`JAM_OPENAI_URL` and `JAM_LLM_MODEL`. `JAM_VOTING_POST_URL` names the thread
and `JAM_OUTPUT_PATH` the file the full results are written to.
