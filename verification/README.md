# claude_o_meter

A gauge for the menu bar: how far the session and weekly quotas of a coding
assistant are used up, when they are renewed, and what past sessions used.

- `src/` holds the rules, each proved against its contract with Verus: reading
  reports and bringing them to scale (`api`), counting transcripts
  (`transcript`, `rollup`, `history`), alarms (`notifications`), the menu and the
  icon (`menu`, `icons`, `bars`, `theme`), waiting between polls (`poller`),
  prices (`pricing`), credentials and settings. Beneath them lie binary64
  arithmetic on integers (`double`), sorted tables (`table`), stable ranking
  (`ranking`), dates and instants (`calendar`, `clock`) and texts (`text`).
- `tests/` runs the rules on concrete values, among them the arithmetic against
  that of the machine.
- `app/` is the application around the rules: files, the network, the keychain
  and the menu bar of macOS.
