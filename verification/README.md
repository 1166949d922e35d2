# crushrs

A fast explicit crash solver for estimating delta-v, the change of velocity of
each vehicle in an impact, with its logic verified by Verus.

- `src/` is the library: meshes and their sets, models and setups, the `.inp`
  reader, materials and yield curves, the order of a run, lane blocks and
  erosion, contact search, crash signals, vehicles, the search for rail boxes,
  and the VTK, GIF and Parquet formats. Every function states what it returns;
  the public proof functions named `law_...` state what holds of several
  functions together.
- `tests/` runs the library on concrete values.
- `app/` is the command line. It reads and writes files, and does the
  arithmetic.

Numbers are held as their IEEE 754 encodings (`Real`, `Single`): comparing,
negating, halving and choosing between them is exact and verified. Sums,
products and roots are done by the application, which hands them to the library
as values or as functions. What such functions give together is stated up to
their round-off.

The library relies on a few outside functions, each behind one item whose
comment says what is taken for granted: the case conversions and `push` of the
standard library's strings, the schema parser of the `parquet` crate, and the
colour quantiser of the `gif` crate.
