# clipmunge

clipmunge rewrites the Wayland clipboard using rules written in Lua: remove
tracking parameters from copied URLs, shorten shopping links, or turn ticket
numbers into links that paste as text in a terminal and as a link in an editor.

`src/` is a library verified with Verus. It holds everything that clipmunge
decides, with contracts that say what each decision is:

- `selection` stores payloads by MIME type and puts them in canonical order.
- `urlclean` edits the query of a URL; `markup` writes HTML.
- `rules`, `reply` and `config` load a config, match its rules in declaration
  order and turn what a handler returns into a replacement.
- `clipboard` follows offers and selections, tells our own output and secrets
  before anything is read, and drops rewrites of a selection that has changed.
- `transfer` reads and sends payloads within limits of size and time.
- `pump`, `watch`, `startup` and `notify_ready` are the rest of the main loop.
- `api` is what a config can use, and what its Lua state is kept from; `limits`
  says how long it may run, and `notes` what is told of it.
- `state` is a Lua state with a log of what was done with it, so that contracts say
  what is done in which order, and that nothing else is.

`interpreter` and `pattern` are the boundary to Lua (`mlua`) and to regular
expressions (`regex`), with the functions that Lua can call in `api`: what is
believed of them, and no more, stands there.
`text` has the same for the few functions of the standard library that carry no
contract of their own.

`app/` is the program around the library: arguments, the Wayland connection,
pipes, inotify, the readiness socket and the notification command.

`tests/` runs the library, with a real interpreter where rules are concerned.
