# ak47 — word-frequency analysis, verified

A word-frequency analyser for (mostly Chinese) text files. The library in
`src/` is written in Verus and proved against its contracts; `app/` is the
Windows desktop front end (winsafe window, rfd file dialog, file I/O) that
calls it.

- `text`: line-ending normalisation (`\r\n` to `\n`) and its laws.
- `segment`: segmentation with jieba's built-in dictionary (`jieba-rs`).
- `counting`: the word test (all characters alphabetic, more than one UTF-8
  byte) and the frequency table, in order of first appearance.
- `ranking`: stable ranking by decreasing count, and the top-n prefix.
- `report`: the word-cloud / bar-chart HTML page, with its JSON data
  (string literals escaped by `serde_json`).
- `session`: the analyser's state and what "generate" should do in it.
