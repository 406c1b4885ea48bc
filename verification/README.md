# upnp

A UPnP/DLNA media server, split in two:

- `src/` — the library, verified with Verus. Every public function carries a
  `requires`/`ensures` contract over spec functions on sequences and maps.
  - `text` — characters, trimming, splitting, decimal numbers, association lists
  - `template` — the `{{name}}` template engine (`scan_tags`, `Template::render`)
  - `http` — reading requests from bytes, fixed response headers
  - `soap` — the SOAP element tree (parsed with RustyXML) and the
    ContentDirectory `Browse` action
  - `library` — the media table (rows addressed by id)
  - `result_item` — table rows as result items and their DIDL-Lite entries
  - `content_directory_v4` — library rebuild, media URL lookup, `Browse` responses
  - `media_server_v4` — request routing, SSDP messages, `Range` headers
  - `ssdp` — the announcement schedule
  - `service` — the ContentDirectory service's fixed answers
  - `path` — normal forms, file names and extensions of paths
- `app/` — the program: command line, directory walk (with libmagic for MIME
  types), TCP/UDP sockets and threads.
- `tests/` — tests of the library on concrete values.

Run: `upnp --dir /path/to/media` with `xml_templates/` and `icon.png` in the
working directory.
