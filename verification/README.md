# discord-send-notifier

A small command-line notifier that posts a message, or a coloured embed with
title, description, fields, footer and UTC timestamp, to a Discord webhook.

- `src/` is the verified library (Verus):
  - `civil.rs`: seconds since 1970 to the UTC calendar time, proved against the
    proleptic Gregorian calendar, its uniqueness, and the `YYYY-MM-DDTHH:MM:SSZ` text.
  - `text.rs`: character-level helpers (trimming by Unicode white space, search,
    decimal notation).
  - `envfile.rs`: `.env` lookup and the precedence of the webhook URL sources.
  - `payload.rs`: level colours, mentions, embed fields, and the payload a command
    line describes.
  - `send.rs`: the retry decisions of a delivery (success, `Retry-After`, client
    errors, back-off, at most three attempts).
- `app/` is the program around it: argument parsing (clap), reading the
  environment and the `.env` file, JSON encoding (serde_json) and HTTP (ureq).
- `tests/` exercise the library on concrete values.
