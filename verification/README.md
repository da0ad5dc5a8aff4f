# lawh

A static Gemini site generator for maildir archives, with its logic verified
by Verus.

`cli -i MAILDIR -d OUTDIR` reads every mailing list below `MAILDIR` (one
maildir per list, with `cur`, `new` and `tmp`) and writes:

```
OUTDIR/
  index.gmi                       the lists
  LIST/index.gmi, index-N.gmi     the threads of a list, 50 per page
  LIST/threads/MESSAGE-ID/
    index.gmi                     the mails of a thread
    1.gmi, 2.gmi, ...             one page per mail, newest first
```

`gen_test_maildir -o DIR -n COUNT` writes a maildir of sample mails to try
it on.

## Layout

- `src/` — the verified library.
  - `text.rs`: character-sequence specifications (split, lines, join,
    whitespace) and the executable helpers proved against them.
  - `mail.rs`: the mail model, and how a mail is made of what
    `mail_parser` gives for a message.
  - `order.rs`: a stable newest-first sort.
  - `list.rs`: grouping mails into threads by their thread subject, and the
    thread summaries of a list.
  - `body.rs`: mail bodies for Gemini: quotes, patches with coloured diff
    lines, format=flowed undone, links found with `linkify`.
  - `pages.rs`: the Gemini pages of the site.
  - `site.rs`: the directories and files that make up a site.
  - `sample.rs`: sample mails, composed with `lettre`.
- `app/` — the two programs: arguments, randomness, and the file system.
- `tests/` — tests of the library on concrete values.

The contract of each public function states its result over the spec
functions of its module; the `lemma_*` proof functions state the laws that
tie functions together.
