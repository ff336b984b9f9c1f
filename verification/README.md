# carmine

A small HTML/CSS renderer whose text-processing core is verified with Verus.

`src/` is the verified library:

- `text`, `numbers`: character and byte scanning, trimming, splitting, case mapping and
  number reading, each with a specification over sequences.
- `http`: reading HTTP responses as bytes arrive (status, headers, `Content-Length`,
  chunked bodies), charset detection and decoding of fetched documents, IPv4 and host-name
  checks, request text and redirect decisions.
- `dom`: the document tree built from the HTML parser's walk.
- `css`: comments, `!important`, pseudo-elements, specificity, custom properties and
  `var()` substitution, `@media` blocks and their width features, the precedence order of
  matched declarations, and the text of `style` elements.
- `sheet`: the style sheet grammar over `cssparser`'s tokens: rules, declaration lists and
  the custom properties of `:root` rules; the rules whose selectors `scraper` reads, with
  their pseudo-elements, specificities and substituted `var()` values.
- `cascade`: the order in which an element's declarations apply, which inherited
  properties they set, the inheritance of the keyword-valued ones, and how form inputs
  present themselves.
- `style`: the keyword-valued properties, their parsers, shorthands, tag defaults and
  presentational attributes.
- `layout`: white-space collapsing, inline runs and their tokens, grouping of block
  children, grid track lists, tables' column spans and image decoding.
- `resolve`: links, frames and iframes, body extraction, attribute escaping and reference
  resolution.
- `js`, `bridge`: the scripts of a document and their order, placing `document.write`
  output, and RGBA to BGRA pixel conversion.

Laws that hold across calls (round trips, idempotence, stability of a streamed verdict,
order of precedence) are stated as public proof functions beside the functions they speak
of.

`app/` is the program around it: command line, fetching, the floating-point half of the
cascade (lengths, font sizes), layout and painting (`taffy`, `tiny-skia`, `ab_glyph`),
length tokens with `cssparser`, selector matching with `scraper`, and scripts with
`boa_engine`.
