# csvfmt

Applies a format template to every row of CSV, TSV or other delimited data.

```sh
echo "Alice,30" | csvfmt "Hello {1}, you are {2} years old."
# → Hello Alice, you are 30 years old.
```

| Syntax | Meaning |
|---|---|
| `{N}` | Value of the Nth field (1-based) |
| `{name}` | Value of the field whose header is `name` (requires `-H`) |
| `{N:default}` | Field value, or `default` when the field is empty |
| `{?N:text}` | `text` only when field N is non-empty; `text` may contain `{…}` |
| `{{` / `}}` | Literal `{` / `}` |

## Layout

- `src/` is the library, each function proved against its contract:
  - `text.rs`: Unicode whitespace and trimming, ASCII numerals;
  - `format.rs`: the template model, the parser (`parse_template`) and the
    renderer (`resolve_key`, `render`), each specified against a
    mathematical model of templates and records;
  - `rows.rs`: the per-record decisions of the tool (delimiter, header row,
    trimming, blank rows);
  - `laws.rs`: proved properties of the template language (rendering is
    compositional, doubled braces are literal text, what `{N}`, `{name}`,
    `{N:default}` and `{?N:text}` produce).
- `app/main.rs` is the command: arguments (`clap`), reading records (`csv`),
  writing lines.
- `tests/` runs the library, and the record pipeline end to end.
