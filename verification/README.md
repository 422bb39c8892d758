# yachiyo

A chat bot, 月見ヤチヨ, that talks in Discord, on a web page and in voice channels. It asks a
model behind Dify, keeps what was said in a log and in a knowledge base, and speaks with
VOICEVOX.

- `src/` is the library: everything that the bot decides, computes, reads and writes as
  text, verified with Verus.
- `app/` is the program around it: the network, the disk, the database, Discord and the web
  server. `app/voice_gateway.rs` needs `songbird`, and with it the Opus library; it is not
  part of the program until `app/main.rs` names it.
- `tests/` runs the library on concrete values.

| Module | What it holds |
| --- | --- |
| `text`, `number`, `escape`, `clock` | text, numbers, markup and times |
| `json` | JSON documents and the calls into `serde_json` |
| `reply` | answers without thoughts, and answers cut into messages |
| `memory_log` | the log of exchanges |
| `dify`, `dify_stream`, `knowledge`, `chat` | requests to Dify and what its replies mean |
| `discord`, `web`, `speech` | what is done about a message, a form and an utterance |
| `auth`, `page`, `config` | the web interface and the settings |
| `image_name`, `picture` | images by name and by content |
| `audio`, `voice_buffer` | sound, gathered until a pause |
