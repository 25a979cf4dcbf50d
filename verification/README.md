# dms_email_client

The rules of a desktop mail client for DankMaterialShell, written in Rust and verified with
Verus, and around them a daemon that watches IMAP accounts and a command line client that talks
to it over a Unix socket.

`src/` is the verified library. Every function states what it returns or changes; laws that span
functions are public proof functions beside them.

| Module       | What it holds                                                                |
|--------------|------------------------------------------------------------------------------|
| `text`       | splitting, joining, trimming, searching, numbers and paths on characters      |
| `segment`    | links, verification codes and prose in a plain text body                      |
| `readable`   | which mails can be handed to the mail parser                                  |
| `message`    | a parsed mail, its senders, and the header that is shown of it                |
| `mailhtml`   | from a mail to readable text, and from text to HTML                           |
| `translate`  | what is sent to a translator and how the replies are put together             |
| `cache`      | the bounded cache of translations                                             |
| `model`      | the files of the offline model, and when it is loaded and unloaded            |
| `config`     | the configuration and what the daemon makes of it                             |
| `ipc`        | the socket's path and the one-line requests                                   |
| `reply`      | the JSON objects that the daemon answers with                                 |
| `state`      | the listed mails, the errors of the accounts, and the version of the state    |
| `folders`    | which folders of an account are watched                                       |
| `sync`       | the rounds that keep an account in step with its server                       |
| `body_cache` | where bodies are kept on disk, and which have to go                           |
| `commands`   | the requests for a body and for a translation                                 |
| `marking`    | marking one mail, or all, as read                                             |

`app/` holds what touches the outside: the command line, sockets, files, IMAP over TLS, desktop
notices and the translation model. It asks the library what to do, does it, and hands back what
came of it. `tests/` holds the tests of the library.
