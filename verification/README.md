# matchmaker

A 5v5 matchmaking service. Players wait in memory in rating buckets of 100; a
worker takes the player who has waited longest in a bucket, looks for
compatible players around them, and when there are ten forms a match and
divides it into the two teams whose total ratings are closest.

The library under `src/` holds what is decided and computed, verified with
Verus. The program under `app/` adds sockets, threads, clocks and locks: one
around the engine, whose steps thereby happen one at a time, and one around a
copy of its counters, so that `/metrics` does not wait for it.

## Modules

- `config`, `clock`: the fixed numbers; spans and points in time as numbers.
- `player`: players, requests, matches, and what makes a request invalid.
- `rules`: the accepted rating distance, compatibility, the order of picking.
- `selection`: the candidates around a player, the closest ten of them.
- `balance`: the closest division into two teams.
- `pool`: the state of the engine as a mathematical value, and its steps.
- `engine`: the engine itself; every method is a step of `pool`.
- `counters`: the counters of the engine, and their report.
- `text`, `object`, `json`: numbers, searching, splitting; the fields of an
  object; the JSON that is read and written.
- `reader`, `http`: reading requests from bytes, what they ask for and what they
  are answered.
- `worker`, `options`: the order in which a worker visits the buckets; the
  command line.
- `laws`: what holds of the whole, as proof functions.

## What is trusted

Two functions of the standard library are taken at their word, both in `text`:
`String::push`, and `String::from_utf8_lossy`, of which is used that it decodes
valid UTF-8, that some bytes give some text, and that its result depends on the
bytes alone.

## Running

```
matchmaker --addr 127.0.0.1:8080 --workers 8
```

`POST /enqueue` with `{"player_id":"p1","skill":1830,"region":"na","mode":"ranked"}`
joins the queue; `GET /player/p1`, `GET /metrics`, `GET /matches?limit=5` and
`GET /health` tell what has become of it. All four fields are required, and the
rating is an integer from 0 to 5000.
