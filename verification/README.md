# Gfrörli Threema Bot

A Threema bot for querying water temperatures from the [Gfrörli](https://gfrör.li/) sensor network.
What the bot decides and computes is a Verus library: its behaviour is stated in `requires` and
`ensures` clauses and proved.

## Layout

- `src/` is the verified library.
  - `binary64` computes with double precision numbers on their bit patterns, correctly rounded.
    `rounding`, `accuracy` and `statistics` state what follows from that.
  - `text`, `numerals`, `decimals`, `sequences` and `calendar` hold the texts, decimal numbers, sorting
    and times that the rest is built from.
  - `api`, `client` and `identity` hold the sensors, sponsors and measurements, the requests for
    them, and Threema IDs.
  - `alert`, `store` and `scheduler` hold the evaluation of alerts: the afternoon average, the
    states of an alert, the rows that are stored, and what a pass over the due alerts writes.
  - `handler` and `replies` hold the commands and the texts that answer them.
  - `points`, `chart`, `interpolation`, `layout` and `picture` hold what the charts show and how the
    drawing becomes a file. `tangents`, `monotone` and `straight` prove what shape the average line
    has.
  - `config` holds the settings and the command line.
- `app/` runs the library: HTTP, the database, drawing and the Threema gateway.
- `tests/` runs the library on concrete values.

Calls into other crates stand behind functions marked `external_body`, each with a contract that
says what is taken for granted of the call.

## Commands

`/sensors`, `/temp <query>`, `/stats <query>`, `/sponsors`, `/sponsor <query>`,
`/alert <query> <temperature>`, `/alerts`, `/unalert <query>`, `/about`, `/help`.

## Running

The bot takes its settings from a file given with `--config` and from environment variables with the
prefix `GFROERLI_BOT__`. It reads its fonts from `assets/NotoSans-Regular.ttf` and
`assets/NotoSans-Bold.ttf`.
