# KannakaHDL

A growth language for informational materials: cells carry rewrite rules
that recursively split the unit square until they bottom out in `base`
cases, and every base case is a registry query against a catalog of
discovered components.

```text
cell MemoryBank(n) {
    when n > 1  => split MemoryBank(n / 2), MemoryBank(n / 2) bridge "Harmonic Bridge"
    when always => base "Memory Seed" min_persistence 0.3
}
grow MemoryBank(8)
```

The library in `src/` is verified with Verus: each stage states what it
computes as spec functions, and the executable code is proved to compute
exactly that.

- `lexer`, `parser`, `syntax`: source text to program, with line-numbered
  errors; numbers are exact decimals.
- `grow`: program to plan. Regions are recorded exactly, as slice paths
  from the unit square; growth is bounded in depth and leaf count.
- `registry`: providers (the Crystal registry, static fixtures) and the
  resolution strategies `best`, `robust`, `unique`, `diverse`.
- `pipeline`: the compiler's policy decisions (strict, stub, speculative).
- `emit`: the crystal program and the HTML growth visualization.
- `hash`: FNV-1a 64 hashes of sources and plans.
- `laws`: properties spanning the stages, proved over the spec functions.

`app/` is the command-line tool (`check`, `grow`): file and registry I/O,
JSON serialization, and the floating-point geometry of the emitted pulses.
