# email_validator

An e-mail list validator: it extracts addresses from arbitrary text (TXT,
Markdown, XML, CSV, ...), deduplicates them, validates each by syntax, MX
lookup or SMTP conversation, flags catch-all domains, and writes a plain
list, a GoPhish CSV or JSON. It also runs as an HTTP service.

The decisions are a library verified with Verus (`src/`); the program
around it (`app/`) does the reading, the network work and the writing.

## Library (`src/`)

| Module | Contents |
|--------|----------|
| `email` | The address grammar, the leftmost-first search of free text, and its laws (found addresses have the whole-string syntax; an address alone is found whole; no address reaches across a separator) |
| `ingestion` | `extract_and_deduplicate` (with its laws for joined texts and re-extraction), and `Ingestor`, which reads an input in chunks of bytes under a size limit and finds the addresses of the whole input, however it is cut into chunks |
| `order` | Code-point order of texts, merging and sorting into sorted sets |
| `text` | Conversions between strings and characters, white space, trimming, lower-casing |
| `cli` | The command line (`run` and `api`), its grammar as a spec, and the parser |
| `validation` | Private address ranges, the domain of an address, and the steps of each validation method |
| `precheck` | The domains to probe for catch-all behaviour and the probe address |
| `output` | What each output format holds, and the counts |
| `server` | The limits, defaults and deduplication of the HTTP requests, and the response counts |

Each validation method is a short exchange: the library says which lookup
it needs next (`validation::begin`, `after_mx_hosts`,
`after_address_lookup`), the program performs it and hands the answer back
(`after_mx_lookup`, `after_mailbox_check`). With the SMTP method the
addresses of the domain and of each of its mail hosts are checked first, and
no mailbox check is made when any of them is private.

## Program (`app/`)

`main` parses the command line with the library; when the library refuses
a command line, clap (`args`) only prints the usage, help or error text and
the program exits. It then runs the four phases:
reading (`input`), catch-all detection and validation (`checks`, with
`hickory-resolver` and `check-if-email-exists`), and writing (`output`).
`server` serves `POST /validate`, `GET /validate` and `GET /health` with
axum.

```bash
email_validator run -i input.txt -o verified.txt -m regex -f list
email_validator api 127.0.0.1:3000
```
