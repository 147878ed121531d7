# capsule-telegram

Telegram Bot uplink capsule for Astrid OS: it bridges the Telegram Bot API to the kernel IPC
bus. The decisions of the bot are a library that Verus verifies. The calls of Telegram, of the
bus and of the key-value store are a thin crate around it.

## Layout

- `src/access.rs`: the list of users who may talk to the bot.
- `src/session.rs`: session IDs, and the keys under which sessions are kept.
- `src/format/`: markdown to Telegram HTML, truncation, and chunks that fit into messages.
  `laws.rs`, `subset.rs` and `code.rs` there state what holds of the conversion as a whole.
- `src/json.rs`, `src/ipc.rs`: JSON documents, and the messages of the IPC bus in them.
- `src/poll.rs`: where the next poll of Telegram starts, and what is kept of it.
- `src/actions.rs`: what the bot asks to be done, and what it hears of the outcome.
- `src/bot/`: the state of the bot and its handlers. `laws/` states what holds of it as a whole.
- `src/text.rs`, `src/words.rs`, `src/digits.rs`: strings, words and numerals.
- `app/`: the capsule. It polls Telegram and the bus, and does what the steps of the bot ask for.

## How a step works

A handler of `TelegramBot` changes the state and returns a `Step`: actions in their order, and
what the bot has to hear of next. The capsule does the actions, collects one `Outcome` for each,
and calls `resume`, until nothing is left to hear of. Time is handed in as a number of
nanoseconds, so that every handler is a function of its arguments.

## What is trusted

The regular expressions are matched by `regex`, JSON is parsed by `serde_json`, lower case and
the clock come from the standard library. Each of these stands behind an item whose doc comment
says what is claimed of it.
