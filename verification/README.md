# parsimagma

A magma signature and coverage engine over the Equational Theories Project
law set, written in Verus: the library under `src/` is verified, the command
line front end under `app/` reads the data files, hands chunks of the
exhaustive sweeps to worker threads, and prints reports.

For a magma `M`, its *signature* is the bit vector over the law list
recording which laws `M` satisfies. Every separation question is a bit test,
and coverage over a corpus of magmas is bitset algebra over packed words.

## Layout of `src/`

- `law`, `dag`, `finite` — the law language and its parser, the shared
  subterm DAG, and the finite-magma engine; the engine's signature decides
  satisfaction law by law.
- `sig`, `graph`, `coverage` — signatures, the implication graph, the
  coverage matrix, the greedy cover, whole-graph coverage and the minimal
  covering subset of a set of magmas.
- `linear`, `rings`, `nc`, `zmod_tables`, `mat_tables` — linear and affine
  models over rings, decided symbolically by difference polynomials; over
  `Z/m` and over the matrix rings `M_k(F_p)` the symbolic decision is proved
  to agree with the multiplication table.
- `twist`, `transinv`, `quadratic`, `ext`, `ext_laws` — the other
  construction families: twisted Cartesian powers (proved to agree with
  their tables), translation-invariant and quadratic magmas and their
  sweeps, extensions by cocycles; every cocycle the solver returns is proved
  to make the extension satisfy the law.
- `gauss`, `modp` — Gauss–Jordan elimination over `F_p`, proved to return
  solutions of the system it was given, and Fermat's little theorem, which
  makes `a^(p-2)` the inverse the elimination divides by.
- `corpus` — the parameter grid of constructions and its deduplication:
  every row separates and no two rows share a signature; the scans of the
  `Z/m` grids against a list of laws.
- `etpdata`, `problems` — the data-file formats, and the problem writers for
  outside provers, SMT-LIB2 included.

`tests/` exercises the library on concrete values.
