# pulsar_topic_health

Checks whether the topics of a Pulsar cluster are being consumed: whether the
subscription is there, how far behind it is, whether every partition has a
consumer, and whether a cursor is about to lose messages to retention. Beside it
stands what Kubernetes knows of the consumers: pods, restarts, events, logs and
metrics.

Everything that is decided or computed stands in `src/` and is verified with
Verus. `app/` reads, sends and draws.

## Layout of `src/`

| Module | What it holds |
| --- | --- |
| `pulsar` | positions, topic names, statistics, admin URLs |
| `health`, `cursor` | the verdict on a topic and on a cursor |
| `drain`, `state`, `cycle`, `session` | trends, time in state, and what goes from one cycle to the next |
| `metrics`, `stability` | exposition text, histories, verdicts on metrics and on connections |
| `kube` | pods, quantities, labels, log lines, flags, actions, the report |
| `config`, `settings` | the configuration file and the command line |
| `output`, `podtable`, `table` | printed tables |
| `view`, `keys`, `screen`, `panels`, `detail`, `fleet` | the full-screen view: its state, its keys, and what it shows |
| `snapshot`, `timestamp` | snapshot files and times |
| `number`, `float`, `literal` | doubles: comparison and text, arithmetic, reading |
| `text`, `decimal`, `order`, `names`, `assoc`, `tally` | texts, numbers in decimal, order, lists by name, counting |

## Numbers with a fraction

A double is kept as its 64 bits. Each operation is specified as the rounding of
the exact result to the nearest double, ties to even, and proved to be that.

## What is not proved

Calls into the standard library, `serde_json` and `comfy-table` stand behind
items whose contracts are taken on trust. Each says in its comment what it claims.
They stand in `text`, `timestamp`, `kube::json` and `table`.
