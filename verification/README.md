# zero_to_prod

A newsletter service: an HTTP API to subscribe with a name and an e-mail
address, backed by PostgreSQL, with controllers whose routes are collected from
their source files.

`src/` is the library, with its contracts proved:

- `routing`: folding route paths into canonical form and the full paths of a
  controller's routes, with laws (idempotence, ignored edge slashes).
- `route_scan`: reading route attributes out of a controller's source lines,
  and finding a controller's source file in the routes index.
- `routes_index`: the routes index itself: finding the controller declared in
  a file, the `Name:path` entries and the `last_write:` header, with
  write-then-read laws.
- `config`, `env`: configuration variables and the PostgreSQL connection
  string.
- `subscription`: the subscription request and the stored subscription.
- `text`, `decimal`: the string and number helpers these rely on.

`app/` holds the program around it: the axum and actix-web servers, database
access with diesel, logging, the OpenAPI document, the code generation of the
controller attributes, and the file-system walk that writes the routes index.
