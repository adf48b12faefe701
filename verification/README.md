# prog4

A small name-record service: it fetches a text file of people
(`Last First key=value ...` per line), stores one item per person in a
DynamoDB table, and answers queries by last, first or full name; a browser
page drives it.

- `src/` is the verified library:
  - `text.rs`: how text splits into lines, words and `key=value` parts,
    stated over `Seq<char>`, with the scans that compute those splits.
  - `record.rs`: `Record` (attribute to value) and `NameTable` (full name to
    record), association lists of distinct keys viewed as maps.
  - `parse.rs`: `parse_input_file`, reading the name file into a table.
  - `store.rs`: merging parsed records with stored items, the item written
    for each person, and joining the answers of the two name indexes.
  - `laws.rs`: properties across those functions (fresh values win,
    reloading is stable, a query lists each person once, parsed names are
    well-formed full names).
  - `server.rs`, `client.rs`: the service's fixed answers and CORS headers,
    and the state machines of the two browser pages.
- `app/` is the service itself: Rocket routes, file, S3 and DynamoDB calls,
  and the Yew pages, all deciding through the library.
- `tests/` exercises the library on concrete inputs.
