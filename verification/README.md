# LumaSift

LumaSift finds exact duplicate files in the sources and categories that its
owner selects, builds a reviewable plan that retains one copy of each exact
group and queues the others for quarantine, and applies a reviewed plan by
moving each queued copy into a quarantine directory after checking its
content once more.

The library under `src/` holds this logic with Verus contracts:

| Module | What it holds |
| --- | --- |
| `text` | decimal and hexadecimal rendering, trimming, string comparison |
| `path` | the path model (text, components, bytes) and std's path order, file name, stem and extension |
| `sort` | a verified merge sort over a ranking relation |
| `model` | the records: requests, progress, evidence, candidates, groups, dispositions, plans |
| `classify` | the file categories and the selected-category contract |
| `index` | the eligible files of a walk: sorted, first occurrences, outside the app's data |
| `digest` | sampled and full SHA-256 digests |
| `request` | validation of scan requests, NAS connections and the erase confirmation |
| `runtime` | progress reports, cancellation, the owner's source scope |
| `group` | grouping of keyed files by size and digest |
| `plan` | evidence, audit records and the ranking of an exact group |
| `phases` | sampling, full verification and ranking as steps of a scan |
| `apply` | quarantine destinations, moves and the application of a reviewed plan |
| `companion` | the companion service's access, routes, authorization and redaction |

`app/` is the desktop application around it: file and network I/O, the
shared runtime behind a lock, the scan worker thread, the companion HTTP
service and the Tauri entry point.
