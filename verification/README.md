# avenue_model

Rating tables for generalised linear models, with the rules that read and build them
proved in Verus.

A rating model is a list of tables whose factors add on the linear-predictor scale.
Each table is a frame: floating-point columns hold inclusive upper band bounds,
32-bit integer columns hold category codes (`-999` matches any level), and the
`Rating_Factor` column holds the factors. An observation falls in the first row it
satisfies, except that a row matched exactly displaces one matched only through a
wildcard.

## Layout

- `src/` is the verified library.
  - `quantity`, `frame`, `features`: numbers as ordered keys, columnar frames, and
    the features an observation presents.
  - `rating_model`: tables, the first-match rule, variates, links, and the checks on
    what a model is offered to score.
  - `matching`: per-table match plans (lookup, binary search, scan) proved to agree
    with the first-match rule.
  - `encoding`: text categories as codes, merged and remapped between models.
  - `plan`: stating a model (bands, categories, variates, interactions, given
    tables, offsets), building its tables from what the data decides, and the
    findings of a check before fitting.
  - `fitting`: the integer side of a fit: input checks, unmatched observations,
    sweep order and joint pairs.
  - `trees`, `exactness`: LightGBM trees as rating tables, and the proof that the
    tables reproduce the trees exactly.
  - `analysis`: which row of a table each observation falls in for a one-way
    analysis, and the proof that it is the row scoring reads.
  - `review`, `exhibit`, `report`, `markdown`: what a table shows a reader, findings
    and the verdict on a model, and tables laid out in Markdown.
- `tests/` runs the library on concrete values.
- `app/` connects the library to polars frames, LightGBM dumps and plan documents in
  JSON, and does the floating-point arithmetic (sums of factors, links, averages,
  rounding, polynomial fits) on what the library decides.
