# cafein

Public-transport routing for emissions, fares and travel times: the logic of the
compiled half of the `cafein` Python package, verified with Verus.

- `src/` is the library. Every function states what it returns, and when it
  refuses, in `requires` and `ensures`; functions named `law_...` state what
  holds across functions.
  - Artifacts: `bytes`, `crc`, `container`, `street_arrays`, `street_shape`,
    `street_decode`, `street_laws`, `digest`, `load`.
  - Street reductions: `reduction`, `pareto`, `pareto_rows`, `street_costs`,
    `street_legs`, `reduction_laws`, `transfers`, `carriage`.
  - Requests: `options`, `dates`, `ids`, `dispatch`, `checks`, `plans`,
    `queries`, `one_to_all`, `installs`, `profiles`.
  - Results: `links`, `rows`, `time_rows`, `arrive_by`, `reaches`, `costs`,
    `fares`, `zone_refine`, `journeys`, `legs`, `accessibility`, `listings`,
    `progress`.
- `tests/` runs the library on concrete values.
- `app/` is the Python extension module around it: bindings, files, threads,
  and the routing core it is handed.

Doubles are carried by their bit patterns; what adds or multiplies them lives in
`app/` or in the routing core.
