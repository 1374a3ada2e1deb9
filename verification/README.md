# cachewipe

Reclaims disk space held by regenerable caches and build artifacts: package
manager caches under `$HOME`, `node_modules`/`.venv`/`target`/`.next`/`__pycache__`
under scan roots the user names, and dangling Docker data (through Docker's own
prune). It reports by default and deletes only with `--apply`.

The decisions are a Verus-verified library; a thin front end does the I/O.

## Layout

- `src/path.rs`: Unix path components (separator and `.` normalisation, root,
  current and parent directories), resolving `..` against names, rendering,
  joining, prefix tests.
- `src/safety.rs`: the guards: protected paths (as written, with `.` and `..`
  normalized, and once resolved on disk), containment of a candidate in its
  root after resolving both paths, and the verdict for a candidate.
- `src/targets.rs`: the catalog of everything that may be reclaimed, the tiers,
  and where each home cache lives.
- `src/scan.rs`: sizing from the entries a walk met, the walk's decisions,
  lock-file freshness, sibling markers, `df -k` output, the clock.
- `src/versions.rs`: which versioned installs are stale, and a stable sort in
  path order.
- `src/text.rs`: whitespace, trimming, words, lines and decimal numbers.
- `src/cli.rs`: command-line parsing, the plan of a run, what happens to each
  candidate and to Docker (including the engine's exact arguments), and the
  report's totals.
- `src/run.rs`: the record of a run: it holds the run's plan, judges each
  candidate of a planned task on the probes the front end hands in, and
  records only removals of candidates that every guard allowed in a run that
  applies; and how a dry run's report relates to an applying run's removals.
- `app/main.rs`: the command-line program: reads the environment and the
  filesystem, runs Docker and `df`, deletes what the library decides, prints
  text or JSON.
- `tests/`: tests of the library on concrete values, several checked against
  the standard library's own behaviour.

```
cachewipe [--apply] [--json] [--include-os-caches] [--min-age-days N] [--root PATH]...
```
