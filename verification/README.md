# localhost

A small HTTP/1.1 server on Linux `epoll`, with virtual hosts, static files,
listings, uploads, deletion, redirects, CGI scripts and sessions. Everything it
decides is a verified library; the calls to the system stand around it.

- `src/` is the library. Each function says what it returns or changes, and
  Verus proves it. Nothing in it touches the disk, the network, the clock or a
  process: what was found there comes in as plain values, and what is to be done
  there goes out as plain values.
- `app/` is the program. It reads and writes, and hands the results over.
- `tests/` runs the library.

| Module       | What it decides                                               |
|--------------|---------------------------------------------------------------|
| `config`     | reading and validating configuration files                    |
| `http`       | reading requests, building and serialising responses          |
| `router`     | which server and route answer, and what is done about a request |
| `handlers`   | files, listings, uploads, deletion, redirects, error pages    |
| `cgi`        | which script runs, with what, and what its output comes to    |
| `session`    | sessions and their cookies                                    |
| `server`     | the state of a connection, timeouts, addresses to listen on   |
| `event_loop` | what each event asks for, and what becomes of the connection  |
| `utils`      | paths and media types                                         |
| `text`, `string_map` | strings, and maps keyed by them                       |

What is believed without proof stands at the top of `src/text.rs`: five functions
of the standard library, for Unicode case, for UTF-8, and for appending a
character to a string.

Run it with the path of a configuration file:

```text
localhost server.conf
```
