# weland

Weland compiles EPUB files into books that are single SQLite files, and reads them: text as a tree
of nodes, assets, a table of contents, full-text search, and annotations anchored to the words that
they are about.

`src/` is the library. Everything in it is verified with [Verus](https://github.com/verus-lang/verus):
each function states what it returns, and the proofs are checked. What comes from other crates
(parsing HTML and XML, unpacking zip archives, hashing, base64, media types, percent-decoding) is
called behind small functions whose contracts say what is relied on.

`app/` is the program around it: the command line, files, the database and the network.

`tests/` runs the library on concrete books, pages and words.

| Module | What it holds |
| --- | --- |
| `text`, `order`, `double` | texts as sequences of characters, stable orders, numbers in double precision |
| `tree`, `html`, `xml` | parsed documents as lists of nodes |
| `epub`, `archive` | packages, paths and tables of contents, and the archives that they come in |
| `dom` | chapters: text with spans, verse, lists, tables, notes; metadata without markup |
| `compiler`, `book` | a whole EPUB file as the rows of a book |
| `schema`, `json` | the rows of a book file and their JSON attributes |
| `toolkit`, `exports` | Markdown, plain text and JSON of a book; names of extracted files |
| `document`, `node_index`, `toc` | a book as styled text on the screen, and where its nodes stand |
| `annotations`, `annotation_list` | words that a reader marks, finding and listing them |
| `search`, `dictionary`, `vocab` | hits in a book, words and what they mean, words to learn |
| `reader_page`, `keybindings`, `fonts`, `appearance` | the reading page, its keys, its fonts, and how text and pictures are set |
| `recording`, `media` | voice notes and assets |
| `library`, `library_page`, `bookshelf` | the library and its page |
| `persistence`, `settings` | what is kept between one run and the next |
| `sharing` | offering books to other devices and taking theirs |
