# web_agent_research

The core of a web research agent, written in Rust and verified with Verus. A
research goal becomes a session of turns: a model plans, searches and reads
pages, and ends in a synthesis with citations.

The library does no I/O. Whatever alternates with the outside world is a state
machine whose steps are verified; the program in `app/` performs the steps.

## Layout

- `src/text.rs`, `src/json.rs`, `src/time.rs`: text as characters, the JSON
  values that the library builds, spans of time.
- `src/foreign.rs`: every call into another crate, and into parts of std that
  have no specification, each behind a contract that is believed, not proved.
  Two such contracts for std's `char` and `String` stand in `src/text.rs`.
- `src/shared/types`: hits, merged results, failures, the synthesis.
- `src/shared/web_engine_search`: the DuckDuckGo and Startpage legs, codecs,
  dedup and consensus merge, and the fan-out with its deadlines.
- `src/shared/gateway`: configuration, request bodies, replies, retries.
- `src/shared/agent_loop`: the transcript, the tool registry, the turns of a
  run, and how an answer is read.
- `src/shared/obscura`, `src/shared/tools`: fetching a page as markdown, and
  the schemas of the tools.
- `src/shared/session.rs`: evidence, times and the rows of a session file.
- `src/slices/search`: one research run from request to response.
- `tests/`: the library as callers see it.
- `app/`: the command line, HTTP, the subprocess and the session file.

## How contracts are written

Executable types have a view: a value made of sequences, maps and integers.
Functions say what they return as a spec function of the views of their
arguments. Properties that span functions are public proof functions whose
names begin with `law_`.

What another crate computes is named, not described: `parsed_url` is whatever
`url::Url::parse` reads from a text, `dom_subtrees` whatever `scraper` selects
from a page. The logic behind such a call is a function of its own, which is
verified for every result.
