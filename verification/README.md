# edge-relay

The logic of a small Cloudflare Worker that relays Telegram bot commands to the
Lovense developer API, written in Verus and proved against its contracts.

- `src/telegram.rs` — reading a message (`/vibrate 15 2m`, `/stop@bot`, …) into a
  bot command, and mapping a bot command to a Lovense command.
- `src/command.rs` — Lovense `Function` commands and the cloud-command body.
- `src/lovense.rs` — the pairing `getQrCode` body with its MD5 `utoken`, and the
  pairing callback with its toys.
- `src/auth.rs` — which Telegram user may drive the toy.
- `src/text.rs`, `src/number.rs` — whitespace, words, trimming, and decimal and
  hexadecimal numbers, over the characters of a string.
- `app/` — the Worker itself: routing, secrets, JSON on the wire, outbound HTTP.

## Status

The Worker's live routes are stubs: `/telegram` and `/lovense-callback` answer
`ok` and `/pair` answers `pair: todo`. The handlers in `app/glue.rs` (pairing
callback, QR request, cloud command, Telegram reply) are built but not routed.
Nothing yet checks the `TG_WEBHOOK_SECRET` header of a webhook call or gates
commands on `ALLOWED_USER_ID`; the library provides the pieces
(`auth::parse_allowed_id`, `auth::is_allowed`, `telegram::parse`) for that
dispatch. The serde defaults of the callback payload (missing name, id or toys
filled in, a missing uid refused) live in `app/wire.rs`.
