# hl-blockscope

Block-level and trade-level measurements of Hyperliquid, as a Verus library with three programs
around it.

- The **live view** shows HyperCore and HyperEVM blocks as they are produced, with rolling
  statistics. `--once` prints one plain-text snapshot.
- The **regulator** benchmarks every HyperCore fill against Binance, Bybit and OKX, and measures
  how long the chain's mid sits away from theirs.
- The **classifier** attributes every fill to its taker and its maker, and measures each address
  by what the chain's mid did after its fills.

## Layout

`src/` is the library. Every function in it carries a contract that Verus proves.

| module | what it holds |
|---|---|
| `blocks`, `validators` | blocks and validator names, read from the endpoints' replies |
| `poll`, `board`, `rolling` | what to fetch next, the retained window, and its statistics |
| `wire`, `stream` | the venues' messages and subscriptions, and how a stream is kept alive |
| `feeds` | quotes, trades, the venues' reference and the chain's own book |
| `regulator` | costs of fills and the mispricing clock |
| `classifier`, `groups`, `accounts`, `classes` | markouts, observations, addresses and their classes |
| `kmeans` | the choices of a k-means search |
| `json`, `text`, `clock`, `order`, `double` | JSON documents, strings, clocks, orders, doubles |

`app/` performs the I/O, draws the terminal view and does the arithmetic on doubles. Doubles
enter the library by their bits: it compares, orders and selects them, and adds none. Nothing
in `app/` is verified; it tests what a library function requires before it calls it.

`tests/` runs the library on concrete values.

## What is trusted

Calls into `serde_json` and into parts of the standard library stand behind small wrappers whose
contracts are stated and not proved. Each has a doc comment that says what it claims. They are
in `json`, `text` and `clock`.

## Laws

Besides the contracts of single functions, each module states what holds across them as public
proof functions named `law_...`: that over a run of polling no EVM block that is due is skipped,
one that does not come being asked for again in each round that is told the head; that the mid
before a fill is not touched by what the fill did; that a markout once known never changes; that
every fill is in one observation and no other; that a search for clusters ends, keeps its best
run and gives the same clusters for the same answers; and more.
