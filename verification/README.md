# protests

A web site that lists the protests happening in a country: visitors search
them by town, date, tags and author, log in with a one-time link, add and
edit protests, and read the site in their language.

The crate is in two parts.

- `src/` is the verified library:
  - `regions`: how the regions are listed in the search form (top-level
    regions, and the others grouped under their parent, sorted by name),
    with the proofs that the grouping is complete and unique, and that it
    does not depend on the order in which the regions are read where
    top-level regions that share a referenced id share a name and no two
    regions of a group share a name;
  - `model`: the records, and how the tag and time fields of a form are read;
  - `queries`: the statements sent to the database and their parameters;
  - `session`: the language and user cookies, and the login link;
  - `localizer`: the texts of the interface per language, kept in Fluent
    bundles;
  - `replies`: what the pages answer after the database has answered;
  - `text`: the order of names.
- `app/` is the server around it (axum, sqlx, askama): it reads requests,
  files and configuration, runs the statements, renders the pages, and hands
  plain values to the library and back.

The server expects `Settings.toml`, a `locales/` directory of `.ftl` files,
`templates/` for the pages and `assets/`.
