# catcount

Counts the articles of the `actur` database per category between two dates.

`src/` is the library: every rule of the program, with a contract that Verus
proves. `app/` is the program around it: arguments, the ssh tunnel's process,
the database connection and the percentages, which are floating point.

| Module | What it states |
| --- | --- |
| `moment` | what a date argument means, the order of a range, and that bare dates cover whole days |
| `pipeline` | the aggregation that the database runs |
| `label` | which spellings of a category label are merged |
| `tally`, `buckets`, `groups` | rows into categories: names, counts, publications, order |
| `laws` | what holds of every grouping: nothing is lost, nothing is counted twice |
| `rank` | sorting, and how far a strict order fixes a list |
| `select` | the grand total, `--min` and `--top` |
| `table`, `csv`, `json` | the three outputs |
| `tunnel` | the steps of opening the tunnel, and the database's address |
| `text` | characters, padding, decimal numbers |
