# chat_llm

A terminal client for OpenAI-compatible chat servers. It keeps a conversation,
sends it as a streamed chat-completion request, and prints the reply as the
server-sent events arrive.

- `src/` is the verified library (Verus): the framing of the event stream into
  lines and payloads (`render`), the joining of decoded chunks into the reply,
  the per-request decisions on status, retries and the token budget (`stream`),
  the configuration (`config`), the conversation (`conversation`), the request
  body (`llm`) and the prompt decisions (`repl`).
- `app/` is the program around it: command line (clap), environment (envy),
  JSON encoding and decoding (serde), HTTP (reqwest) and the terminal.
- `tests/` exercises the library.
