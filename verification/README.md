# yaebook

Downloads a title from Yandex Books and saves it as an EPUB file that reads
well on iPad, Kindle and other readers: the book's metadata written into the
package, embedded fonts dropped, a system style sheet added, every chapter
repaired into well-formed XHTML, and the cover given its own page.

The library in `src/` is written in Verus; each function carries a contract
that Verus proves:

- `book` — the book model, book identifiers, output file names;
- `json`, `client` — reading the API's answers, and when to ask again;
- `text`, `paths`, `css` — words, archive paths, `@font-face` rules;
- `xml`, `xhtml` — package documents and chapters as trees;
- `zipfile`, `archive` — reading the downloaded archive and writing the new one;
- `opf`, `cover`, `epub` — preparing the book;
- `cli` — the command line.

`app/main.rs` is the program around it: the network, the environment and the
file system.

Usage:

```bash
yaebook --token 'y0_...' --output-dir /path/to/books https://books.yandex.ru/books/HLwwn7ea
YA_BOOKS_TOKEN='y0_...' yaebook https://books.yandex.ru/books/HLwwn7ea
```
