# docs-mcp-rs

A server that crawls documentation sites, splits the pages into chunks, embeds
them and answers searches over them, through MCP tools, a web API and a command
line.

- `src/` is the library, verified with Verus: configuration, the text and
  Markdown helpers, the HTML parser and converter, link extraction, the crawl
  frontier, the text, Markdown and code splitters, the job table of the
  pipeline, the embedding model tables and request helpers, and the messages of
  the MCP tools. Calls into `regex`, `url`, `scraper`, `dom_smoothie`,
  `fast_html2md` and `chrono` stand behind small trusted wrappers whose
  contracts say what is assumed of them.
- `app/` is the program around it: command-line parsing, the SQLite store, HTTP
  fetching, the embedding providers, the task that runs jobs, the web API and
  the MCP server over standard input and output. Pages are fetched over plain
  HTTP only: there is no headless-browser mode, and a job that asks for browser
  scraping is fetched over HTTP with a warning.
- `tests/` runs the library on concrete inputs.
