# cs_float_planner

A planner for CS2 trade-up contracts. Ten items of one rarity are traded for one
of the next; the wear ("float") of the result follows from the floats of the
inputs in single-precision arithmetic, and the last bit counts. The library
analyses contracts, previews unfinished ones, and searches a pool of listings for
the inputs that lead to a wanted output.

The library is verified with Verus. It computes with the bit patterns of
single-precision numbers, so that every contract speaks of the exact result.

## Layout

`src/` is the verified library:

| Modules | Subject |
| --- | --- |
| `rounding`, `float32`, `float64`, `bignum`, `decimal`, `numerals` | single precision: rounding, arithmetic, text in both directions |
| `accuracy` | what rounding keeps: order, exact values, the range of shares and outputs |
| `text`, `slices`, `sorting`, `tally` | texts, stable sorting, counts under keys |
| `domain`, `catalog` | skins, listings, wear, and the catalog they form |
| `contract`, `odds` | complete and partial contracts, their outcomes and probabilities |
| `errors` | how far rounding leads from exact results |
| `preview`, `ideal` | what previews and ideal plans promise, up to rounding |
| `search`, `beam`, `planner` | exhaustive and bounded search, reverse planning |
| `json`, `urls`, `market` | pages of the Steam Community Market |
| `vdf`, `sync` | the game's item file, float caps, the catalog import |
| `regression` | contracts that really happened, as evidence |
| `api`, `desktop` | decisions of the HTTP service and of the desktop program |

Parsing JSON and addresses is left to `serde_json` and `url`, decoding UTF-8 and lower
case to the standard library; what is relied on is stated at the functions that call
them, in `json`, `urls`, `sync` and `market`.

`app/` is the HTTP service, with the database and the commands of the desktop
program. It converts between the library's types and JSON, and does all input and
output. `tests/` runs the library.

## Limits

* A plan asks the market for at most twenty pages, and one skin costs at most ten of
  them, split among its exteriors. Where the market fails or does
  not answer in time, the plan is made without listings and says so.
* Prices are added up in 64 bits. The exhaustive search wraps around, the bounded
  one drops a choice that would.
* The bounds of a preview hold up to rounding: where caps are up to five apart and begin
  within ten of zero, a contract stays within 0.00001 of them.
* The `url` crate keeps positions within an address in 32 bits. An address that does
  not fit is refused like a base that cannot be extended.
