# wisp_web

A small web ecosystem around the `wisp://` protocol, with its logic written in
Verus and proved against specifications.

`src/` is the verified library:

| Module        | What it holds |
|---------------|---------------|
| `text`        | Character and string helpers with their specifications (trimming, splitting, decimal numbers, UTF-8). |
| `message`     | Request and response frames: writing them and reading them back. |
| `roundtrip`   | The proof that reading a written frame gives the frame back. |
| `handshake`   | The plaintext `WISP-HELLO` / `WISP-READY` / `WISP-REJECT` negotiation. |
| `css`, `html` | The CSS and HTML parsers, each specified position by position. |
| `style`       | Selector matching, the cascade and inheritance. |
| `values`      | Colour values. |
| `index`       | The inverted index, ranked search, and page text extraction. |
| `search_page` | Query decoding, HTML escaping and the search engine's pages. |
| `site`        | The static-file server's answers. |
| `client`      | `wisp://` addresses and the request a fetch sends. |
| `render`      | Inline style sheets, the pixel buffer, and the error page. |
| `crawl`       | The crawler's sites file and page titles. |
| `tls`         | Self-signed certificates for local servers. |

`app/` is the program around it: sockets, TLS sessions, files, the window of
the browser, and block layout and painting, which work in floating point.

`tests/` exercises the library on concrete values.
