# garc

Branch-collision control for coding agents that share a Git repository on a
LAN. Before a checkout, an agent announces a claim on the branch, reads the
mesh of agents, and either checks the branch out or diverts to
`<branch>--<agent>` when another agent is on it or wins the claim
arbitration.

Layout:

- `src/` — the verified library: collision engine and arbitration
  (`engine`), the checkout, status and commit decisions and reports
  (`commands`, `output`, `render`), mesh announcements and the retry policy
  (`mesh`), the REST bridge protocol (`rest`), the post-checkout hook text
  (`installer`), the bounded trace history (`history`), repository naming
  decisions (`git`), configuration (`config`), and text helpers (`text`).
- `app/` — the `garc` command: argument parsing, files, Git, mDNS and the
  network, printing.
- `tests/` — tests of the library on concrete values.
