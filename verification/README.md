# xks

Typed System One judgments (`noul`, `choice`, `score`) read from a model's
next-token distribution, with the model's matrix multiplies shared with the
Xeon Phi cards. This crate is the part of `xks` that decides things, each
decision stated as a contract and proved with Verus:

| module | what it decides |
| --- | --- |
| `prompt` | the session prefix and each question's fingerprint, template and user text kept apart; option labels |
| `artichoke` | where fingerprints fork from their session, what is refused before any prefill, which fingerprints are decoded together, what the session cache holds after a request, which labels are refused |
| `trie` | for labels of several tokens: the trie of label prefixes and where each label is read along it |
| `judge` | which questions a backend can read, and every rotation of a Choice's options |
| `server` | routes, bearer keys, what a refused or failed request is answered, and the kill date |
| `site` | the three sites and the cards each needs, the cards' workers, the lock's holder, the payload's place |
| `doctor` | the report, its verdict and its text |
| `decisions` | the decision log's time stamp and the marks it keeps in place of text |
| `ledger` | what a line of the payload's verbose log says |
| `eval`, `corroborate` | which lines are cases, which option a gold label names, which rows of two runs match |
| `cli`, `subproject` | flags and a request from them, the detached server's log relay, which subprojects a name picks |
| `text` | characters, lines, words and numbers, with their specifications |

`app/` is the program around it: the commands that need no model (`stop`,
`release`, `doctor`, `subproject`, `replay`, `ledger`, `corroborate`), the
files and child processes they use, and the floating-point arithmetic
(softmax, calibration, metrics, the ledger's totals), which Verus does not
reason about. The model engine and the HTTP server are not part of it.

The tests under `tests/` run the library on concrete cases, the ones its
documentation gives among them.
