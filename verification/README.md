# docmill

Document conversion with OCR over the pictures that documents hold: drawings in
office files, figures in PDF pages, and image files by themselves.

The library under `src/` holds the decisions and is verified with Verus: each
function says in its contract what it returns, and the laws that relate
functions stand beside them as proof functions named `law_…`. The program under
`app/` reads and writes files, talks HTTP, measures in floating point and calls
the document converter; it asks the library what to do next.

| Module | What it holds |
|---|---|
| `document`, `tree`, `converted` | a converted document as nodes and as an item tree |
| `postprocess`, `postprocess_laws` | which pictures are read, and what takes their place |
| `engine`, `remote`, `vlm`, `paddle`, `local` | the chain of engines, retries, requests and answers |
| `det`, `layout`, `order` | text boxes in an image, reading order, texts in a grid |
| `pixels`, `recognition` | parts of images, the runs of a recogniser and its classes |
| `cache`, `canonical`, `json`, `base64` | results on disk, and what decides them |
| `config`, `cli`, `batch`, `paths`, `path_order` | settings, the command line, many files at once |
| `input`, `conversion` | detecting formats, conversion settings, the warm pipeline |
| `serve`, `query`, `query_laws`, `multipart`, `multipart_laws`, `form_laws` | conversion over HTTP |
| `text`, `bytes` | characters and bytes |

What is believed without proof is marked `external_body` or
`assume_specification`: calls into `serde_json`, `sha2`, `image`, `zip`,
`docling`, `docling_core`, `docling_pdf` and a few functions of std, each with the contract
that the caller relies on. Positions and scores are floating point, so the
caller measures them and hands over what follows: an order, a verdict, a column.
